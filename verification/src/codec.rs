//! Records laid end to end: what it means to write a list of them and to read
//! it back, whatever one record looks like.

use vstd::prelude::*;

use crate::error::Error;

verus! {

/// The encodings of `items`, one after the other.
pub open spec fn cat<T>(enc: spec_fn(T) -> Seq<u8>, items: Seq<T>) -> Seq<u8>
    decreases items.len(),
{
    if items.len() == 0 {
        Seq::<u8>::empty()
    } else {
        cat(enc, items.drop_last()) + enc(items.last())
    }
}

/// Reads `n` records from `b` at `off`, and says where they end.
pub open spec fn parse_many<T>(
    item: spec_fn(Seq<u8>, int) -> Result<(T, int), Error>,
    b: Seq<u8>,
    off: int,
    n: nat,
) -> Result<(Seq<T>, int), Error>
    decreases n,
{
    if n == 0 {
        Ok((Seq::<T>::empty(), off))
    } else {
        match item(b, off) {
            Err(e) => Err(e),
            Ok((first, mid)) => prepend(
                seq![first],
                parse_many(item, b, mid, (n - 1) as nat),
            ),
        }
    }
}

/// What reading gives when the records `head` have already been read.
pub open spec fn prepend<T>(
    head: Seq<T>,
    tail: Result<(Seq<T>, int), Error>,
) -> Result<(Seq<T>, int), Error> {
    match tail {
        Err(e) => Err(e),
        Ok((rest, end)) => Ok((head + rest, end)),
    }
}

/// Records read in two steps are the records read in one.
pub proof fn lemma_prepend_step<T>(head: Seq<T>, x: T, tail: Result<(Seq<T>, int), Error>)
    ensures
        prepend(head, prepend(seq![x], tail)) == prepend(head.push(x), tail),
{
    if let Ok((rest, end)) = tail {
        assert(head + (seq![x] + rest) =~= head.push(x) + rest);
    }
}

/// The first record stands first.
pub proof fn lemma_cat_front<T>(enc: spec_fn(T) -> Seq<u8>, items: Seq<T>)
    requires
        items.len() > 0,
    ensures
        cat(enc, items) == enc(items[0]) + cat(enc, items.drop_first()),
    decreases items.len(),
{
    if items.len() == 1 {
        assert(items.drop_last() =~= Seq::<T>::empty());
        assert(items.drop_first() =~= Seq::<T>::empty());
        assert(cat(enc, items) =~= enc(items[0]) + cat(enc, items.drop_first()));
    } else {
        lemma_cat_front(enc, items.drop_last());
        assert(items.drop_last().drop_first() =~= items.drop_first().drop_last());
        assert(cat(enc, items) =~= enc(items[0]) + cat(enc, items.drop_first()));
    }
}

/// Appending a record appends its encoding.
pub proof fn lemma_cat_push<T>(enc: spec_fn(T) -> Seq<u8>, items: Seq<T>, x: T)
    ensures
        cat(enc, items.push(x)) == cat(enc, items) + enc(x),
{
    assert(items.push(x).drop_last() =~= items);
}

/// The encoding of two lists, one after the other.
pub proof fn lemma_cat_append<T>(enc: spec_fn(T) -> Seq<u8>, a: Seq<T>, b: Seq<T>)
    ensures
        cat(enc, a + b) == cat(enc, a) + cat(enc, b),
    decreases b.len(),
{
    if b.len() == 0 {
        assert(a + b =~= a);
        assert(cat(enc, a) + cat(enc, b) =~= cat(enc, a));
    } else {
        assert((a + b).drop_last() =~= a + b.drop_last());
        lemma_cat_append(enc, a, b.drop_last());
        assert(cat(enc, a + b) =~= cat(enc, a) + cat(enc, b));
    }
}

/// `item` reads back what `enc` writes, wherever it stands.
pub open spec fn reads_back<T>(
    item: spec_fn(Seq<u8>, int) -> Result<(T, int), Error>,
    enc: spec_fn(T) -> Seq<u8>,
    x: T,
) -> bool {
    forall|b: Seq<u8>, off: int|
        0 <= off && off + enc(x).len() <= b.len() && b.subrange(off, off + enc(x).len()) == enc(x)
            ==> #[trigger] item(b, off) == Ok::<(T, int), Error>((x, off + enc(x).len()))
}

/// `item` accepts no bytes but those that `enc` writes.
pub open spec fn reads_only<T>(
    item: spec_fn(Seq<u8>, int) -> Result<(T, int), Error>,
    enc: spec_fn(T) -> Seq<u8>,
    b: Seq<u8>,
) -> bool {
    forall|off: int| 0 <= off <= b.len() ==> match #[trigger] item(b, off) {
        Ok((x, end)) => off <= end <= b.len() && enc(x) == b.subrange(off, end),
        Err(_) => true,
    }
}

/// Reading a list that was written gives the list.
pub proof fn lemma_parse_cat<T>(
    item: spec_fn(Seq<u8>, int) -> Result<(T, int), Error>,
    enc: spec_fn(T) -> Seq<u8>,
    items: Seq<T>,
    b: Seq<u8>,
    off: int,
)
    requires
        0 <= off,
        off + cat(enc, items).len() <= b.len(),
        b.subrange(off, off + cat(enc, items).len()) == cat(enc, items),
        forall|i: int| 0 <= i < items.len() ==> reads_back(item, enc, #[trigger] items[i]),
    ensures
        parse_many(item, b, off, items.len()) == Ok::<(Seq<T>, int), Error>(
            (items, off + cat(enc, items).len()),
        ),
    decreases items.len(),
{
    if items.len() == 0 {
        assert(items =~= Seq::<T>::empty());
    } else {
        lemma_cat_front(enc, items);
        let x = items[0];
        let rest = items.drop_first();
        let whole = cat(enc, items);
        let mid = off + enc(x).len();
        assert(reads_back(item, enc, x));
        assert(b.subrange(off, mid) =~= enc(x)) by {
            assert(whole.subrange(0, enc(x).len() as int) =~= enc(x));
            assert(b.subrange(off, off + whole.len()).subrange(0, enc(x).len() as int)
                =~= b.subrange(off, mid));
        }
        assert(b.subrange(mid, mid + cat(enc, rest).len()) =~= cat(enc, rest)) by {
            let n = enc(x).len() as int;
            assert(whole.subrange(n, whole.len() as int) =~= cat(enc, rest));
            assert(b.subrange(off, off + whole.len()).subrange(n, whole.len() as int)
                =~= b.subrange(mid, mid + cat(enc, rest).len()));
        }
        assert forall|i: int| 0 <= i < rest.len() implies reads_back(
            item,
            enc,
            #[trigger] rest[i],
        ) by {
            assert(rest[i] == items[i + 1]);
        }
        lemma_parse_cat(item, enc, rest, b, mid);
        assert(seq![x] + rest =~= items);
    }
}

/// A list that was read is written as the bytes it was read from.
pub proof fn lemma_cat_of_parse<T>(
    item: spec_fn(Seq<u8>, int) -> Result<(T, int), Error>,
    enc: spec_fn(T) -> Seq<u8>,
    b: Seq<u8>,
    off: int,
    n: nat,
)
    requires
        0 <= off <= b.len(),
        reads_only(item, enc, b),
    ensures
        match parse_many(item, b, off, n) {
            Ok((items, end)) => {
                &&& items.len() == n
                &&& off <= end <= b.len()
                &&& cat(enc, items) == b.subrange(off, end)
            },
            Err(_) => true,
        },
    decreases n,
{
    if n == 0 {
        assert(b.subrange(off, off) =~= Seq::<u8>::empty());
    } else {
        match item(b, off) {
            Err(_) => {},
            Ok((x, mid)) => {
                assert(off <= mid <= b.len() && enc(x) == b.subrange(off, mid));
                lemma_cat_of_parse(item, enc, b, mid, (n - 1) as nat);
                if let Ok((rest, end)) = parse_many(item, b, mid, (n - 1) as nat) {
                    let items = seq![x] + rest;
                    lemma_cat_front(enc, items);
                    assert(items.drop_first() =~= rest);
                    assert(b.subrange(off, mid) + b.subrange(mid, end) =~= b.subrange(off, end));
                }
            },
        }
    }
}

/// A list fails to parse for no other reasons than its items do.
pub proof fn lemma_parse_plain<T>(
    item: spec_fn(Seq<u8>, int) -> Result<(T, int), Error>,
    b: Seq<u8>,
    off: int,
    n: nat,
)
    requires
        forall|at: int| #[trigger]
            item(b, at) matches Err(e) ==> !(e is PublishUncertain),
    ensures
        parse_many(item, b, off, n) matches Err(e) ==> !(e is PublishUncertain),
    decreases n,
{
    if n > 0 {
        if let Ok((_, mid)) = item(b, off) {
            lemma_parse_plain(item, b, mid, (n - 1) as nat);
        }
    }
}

} // verus!
