use vstd::prelude::*;

verus! {

/// The pieces of `s` between occurrences of `sep`, empty ones included.
pub open spec fn split_on(s: Seq<char>, sep: char) -> Seq<Seq<char>>
    decreases s.len(),
{
    if s.len() == 0 {
        seq![Seq::<char>::empty()]
    } else {
        let rest = split_on(s.drop_first(), sep);
        if s[0] == sep {
            seq![Seq::<char>::empty()] + rest
        } else {
            rest.update(0, seq![s[0]] + rest[0])
        }
    }
}

pub proof fn lemma_split_not_empty(s: Seq<char>, sep: char)
    ensures
        split_on(s, sep).len() >= 1,
    decreases s.len(),
{
    if s.len() > 0 {
        lemma_split_not_empty(s.drop_first(), sep);
    }
}

/// Before the first separator, the first piece grows with each character, and the others
/// stay.
pub proof fn lemma_split_component(s: Seq<char>, start: int, i: int, sep: char)
    requires
        0 <= start <= i <= s.len(),
        forall|k: int| start <= k < i ==> s[k] != sep,
    ensures
        split_on(s.subrange(start, s.len() as int), sep)[0] == s.subrange(start, i) + split_on(
            s.subrange(i, s.len() as int),
            sep,
        )[0],
        split_on(s.subrange(start, s.len() as int), sep).drop_first() == split_on(
            s.subrange(i, s.len() as int),
            sep,
        ).drop_first(),
        split_on(s.subrange(start, s.len() as int), sep).len() == split_on(
            s.subrange(i, s.len() as int),
            sep,
        ).len(),
    decreases i - start,
{
    let whole = s.subrange(start, s.len() as int);
    if start < i {
        lemma_split_component(s, start + 1, i, sep);
        assert(whole.drop_first() =~= s.subrange(start + 1, s.len() as int));
        lemma_split_not_empty(whole.drop_first(), sep);
        assert(s.subrange(start, i) =~= seq![s[start]] + s.subrange(start + 1, i));
        assert(split_on(whole, sep).drop_first() =~= split_on(whole.drop_first(), sep).drop_first());
    } else {
        assert(s.subrange(start, i) =~= Seq::<char>::empty());
    }
}

/// The pieces written one after the other with `sep` between each two.
pub open spec fn joined(pieces: Seq<Seq<char>>, sep: char) -> Seq<char>
    decreases pieces.len(),
{
    if pieces.len() <= 1 {
        if pieces.len() == 0 {
            Seq::empty()
        } else {
            pieces[0]
        }
    } else {
        pieces[0] + seq![sep] + joined(pieces.drop_first(), sep)
    }
}

/// Splitting takes nothing away and adds nothing: joining the pieces with the separator
/// gives the text back, and no piece holds the separator.
pub proof fn lemma_split_then_join(s: Seq<char>, sep: char)
    ensures
        joined(split_on(s, sep), sep) == s,
        forall|i: int, k: int|
            0 <= i < split_on(s, sep).len() && 0 <= k < split_on(s, sep)[i].len() ==> #[trigger] split_on(
                s,
                sep,
            )[i][k] != sep,
    decreases s.len(),
{
    if s.len() > 0 {
        let rest = split_on(s.drop_first(), sep);
        lemma_split_then_join(s.drop_first(), sep);
        lemma_split_not_empty(s.drop_first(), sep);
        if s[0] == sep {
            let pieces = seq![Seq::<char>::empty()] + rest;
            assert(pieces.drop_first() =~= rest);
            assert(pieces[0] =~= Seq::<char>::empty());
            assert(joined(pieces, sep) =~= seq![sep] + joined(rest, sep));
            assert(s =~= seq![s[0]] + s.drop_first());
            assert forall|i: int, k: int|
                0 <= i < pieces.len() && 0 <= k < pieces[i].len() implies #[trigger] pieces[i][k] != sep by {
                assert(pieces[i] == rest[i - 1]);
            }
        } else {
            let first = seq![s[0]] + rest[0];
            let pieces = rest.update(0, first);
            assert(pieces.drop_first() =~= rest.drop_first());
            if rest.len() == 1 {
                assert(joined(rest, sep) == rest[0]);
                assert(joined(pieces, sep) == first);
            } else {
                assert(joined(rest, sep) == rest[0] + seq![sep] + joined(rest.drop_first(), sep));
                assert(joined(pieces, sep) == first + seq![sep] + joined(rest.drop_first(), sep));
                assert(first + seq![sep] + joined(rest.drop_first(), sep) =~= seq![s[0]] + (rest[0]
                    + seq![sep] + joined(rest.drop_first(), sep)));
            }
            assert(s =~= seq![s[0]] + s.drop_first());
            assert forall|i: int, k: int|
                0 <= i < pieces.len() && 0 <= k < pieces[i].len() implies #[trigger] pieces[i][k] != sep by {
                if i == 0 {
                    if k > 0 {
                        assert(first[k] == rest[0][k - 1]);
                    }
                } else {
                    assert(pieces[i] == rest[i]);
                }
            }
        }
    }
}

/// A text without the separator is one piece.
pub proof fn lemma_split_without_separator(y: Seq<char>, sep: char)
    requires
        forall|k: int| 0 <= k < y.len() ==> y[k] != sep,
    ensures
        split_on(y, sep) == seq![y],
{
    lemma_split_component(y, 0, y.len() as int, sep);
    assert(y.subrange(0, y.len() as int) =~= y);
    assert(y.subrange(y.len() as int, y.len() as int) =~= Seq::<char>::empty());
    assert(split_on(Seq::<char>::empty(), sep) =~= seq![Seq::<char>::empty()]);
    assert(split_on(y, sep) =~= seq![y]);
}

/// Appending a separator and a text without it appends that text as one more piece.
pub proof fn lemma_split_append_piece(x: Seq<char>, y: Seq<char>, sep: char)
    requires
        forall|k: int| 0 <= k < y.len() ==> y[k] != sep,
    ensures
        split_on(x + seq![sep] + y, sep) == split_on(x, sep).push(y),
    decreases x.len(),
{
    let whole = x + seq![sep] + y;
    if x.len() == 0 {
        assert(whole =~= seq![sep] + y);
        assert(whole.drop_first() =~= y);
        lemma_split_without_separator(y, sep);
        assert(split_on(x, sep) =~= seq![Seq::<char>::empty()]);
        assert(split_on(whole, sep) =~= split_on(x, sep).push(y));
    } else {
        lemma_split_append_piece(x.drop_first(), y, sep);
        lemma_split_not_empty(x.drop_first(), sep);
        assert(whole.drop_first() =~= x.drop_first() + seq![sep] + y);
        assert(whole[0] == x[0]);
        let rest = split_on(x.drop_first(), sep);
        if x[0] == sep {
            assert(split_on(whole, sep) =~= seq![Seq::<char>::empty()] + rest.push(y));
            assert(split_on(x, sep) =~= seq![Seq::<char>::empty()] + rest);
            assert(seq![Seq::<char>::empty()] + rest.push(y) =~= (seq![Seq::<char>::empty()] + rest).push(y));
        } else {
            let first = seq![x[0]] + rest[0];
            assert(rest.push(y)[0] == rest[0]);
            assert(split_on(whole, sep) =~= rest.push(y).update(0, first));
            assert(split_on(x, sep) =~= rest.update(0, first));
            assert(rest.push(y).update(0, first) =~= rest.update(0, first).push(y));
        }
    }
}

/// At a separator, a new piece starts.
pub proof fn lemma_split_at_separator(s: Seq<char>, i: int, sep: char)
    requires
        0 <= i < s.len(),
        s[i] == sep,
    ensures
        split_on(s.subrange(i, s.len() as int), sep) == seq![Seq::<char>::empty()] + split_on(
            s.subrange(i + 1, s.len() as int),
            sep,
        ),
{
    assert(s.subrange(i, s.len() as int).drop_first() =~= s.subrange(i + 1, s.len() as int));
}

} // verus!
