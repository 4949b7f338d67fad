//! The executable search path as an ordered list, and putting a JDK's `bin` entry first in it.
use vstd::prelude::*;

verus! {

/// `s` begins with `p`.
pub open spec fn starts_with(s: Seq<char>, p: Seq<char>) -> bool {
    p.len() <= s.len() && s.subrange(0, p.len() as int) == p
}

/// The pieces of `s` between `sep` characters, in order; an empty `s` is one empty piece.
pub open spec fn split_on(s: Seq<char>, sep: char) -> Seq<Seq<char>>
    decreases s.len(),
{
    if s.len() == 0 {
        seq![Seq::empty()]
    } else {
        let p = split_on(s.drop_last(), sep);
        if s.last() == sep {
            p.push(Seq::empty())
        } else {
            p.update(p.len() - 1, p.last().push(s.last()))
        }
    }
}

/// The pieces written one after another with `sep` between neighbours.
pub open spec fn join_with(pieces: Seq<Seq<char>>, sep: char) -> Seq<char>
    decreases pieces.len(),
{
    if pieces.len() == 0 {
        Seq::empty()
    } else if pieces.len() == 1 {
        pieces[0]
    } else {
        join_with(pieces.drop_last(), sep) + seq![sep] + pieces.last()
    }
}

/// The entries that do not begin with `p`, in their given order.
pub open spec fn entries_without(entries: Seq<Seq<char>>, p: Seq<char>) -> Seq<Seq<char>>
    decreases entries.len(),
{
    if entries.len() == 0 {
        Seq::empty()
    } else {
        let r = entries_without(entries.drop_last(), p);
        if starts_with(entries.last(), p) {
            r
        } else {
            r.push(entries.last())
        }
    }
}

/// The symbolic `bin` directory under a home reference: `home` followed by `\bin`.
pub open spec fn bin_entry(home: Seq<char>) -> Seq<char> {
    home + seq!['\\', 'b', 'i', 'n']
}

/// The search path with `bin` as its only entry that begins with `bin`, placed first, and
/// every other entry after it in its given order.
pub open spec fn reconciled(entries: Seq<Seq<char>>, bin: Seq<char>) -> Seq<Seq<char>> {
    seq![bin] + entries_without(entries, bin)
}

proof fn lemma_entries_without_is_filter(entries: Seq<Seq<char>>, p: Seq<char>)
    ensures
        entries_without(entries, p) == entries.filter(|e: Seq<char>| !starts_with(e, p)),
    decreases entries.len(),
{
    reveal(Seq::filter);
    if entries.len() > 0 {
        lemma_entries_without_is_filter(entries.drop_last(), p);
    }
}

/// After reconciling, the `bin` entry is the only entry that begins with it and stands first,
/// whether the input held no, one or several such entries; the entries after it are exactly
/// the other given entries, each once, in their given order.
pub proof fn lemma_reconcile_unique(entries: Seq<Seq<char>>, home: Seq<char>)
    ensures
        ({
            let bin = bin_entry(home);
            let r = reconciled(entries, bin);
            &&& r.len() >= 1
            &&& r[0] == bin
            &&& forall|i: int| 1 <= i < r.len() ==> !starts_with(#[trigger] r[i], bin)
            &&& r.drop_first() == entries.filter(|e: Seq<char>| !starts_with(e, bin))
        }),
{
    let bin = bin_entry(home);
    let r = reconciled(entries, bin);
    lemma_entries_without_is_filter(entries, bin);
    let f = entries.filter(|e: Seq<char>| !starts_with(e, bin));
    assert(r.drop_first() =~= f);
    assert forall|i: int| 1 <= i < r.len() implies !starts_with(#[trigger] r[i], bin) by {
        assert(r[i] == f[i - 1]);
        entries.lemma_filter_pred(|e: Seq<char>| !starts_with(e, bin), i - 1);
    }
}

pub open spec fn views(v: Seq<String>) -> Seq<Seq<char>> {
    v.map_values(|s: String| s@)
}

/// Whether `s` begins with `p`.
pub fn has_prefix(s: &str, p: &str) -> (r: bool)
    ensures
        r == starts_with(s@, p@),
{
    let n = p.unicode_len();
    if n > s.unicode_len() {
        return false;
    }
    let mut i: usize = 0;
    while i < n
        invariant
            n == p@.len() <= s@.len(),
            i <= n,
            forall|k: int| 0 <= k < i ==> s@[k] == p@[k],
        decreases n - i,
    {
        if s.get_char(i) != p.get_char(i) {
            assert(s@.subrange(0, n as int)[i as int] != p@[i as int]);
            return false;
        }
        i += 1;
    }
    assert(s@.subrange(0, n as int) =~= p@);
    true
}

/// Splits `s` at every `sep`.
pub fn split_path(s: &str, sep: char) -> (r: Vec<String>)
    ensures
        views(r@) == split_on(s@, sep),
{
    let n = s.unicode_len();
    let mut pieces: Vec<String> = Vec::new();
    let mut start: usize = 0;
    let mut i: usize = 0;
    assert(views(pieces@) =~= Seq::<Seq<char>>::empty());
    assert(s@.subrange(0, 0) =~= Seq::<char>::empty());
    while i < n
        invariant
            n == s@.len(),
            start <= i <= n,
            split_on(s@.subrange(0, i as int), sep) == views(pieces@).push(
                s@.subrange(start as int, i as int),
            ),
        decreases n - i,
    {
        let ghost pre = s@.subrange(0, i as int);
        let ghost next = s@.subrange(0, i + 1);
        assert(next.drop_last() =~= pre);
        assert(next.last() == s@[i as int]);
        if s.get_char(i) == sep {
            let piece = String::from_str(s.substring_char(start, i));
            let ghost before = views(pieces@);
            pieces.push(piece);
            assert(views(pieces@) =~= before.push(piece@));
            assert(s@.subrange(i + 1, i + 1) =~= Seq::<char>::empty());
            assert(views(pieces@).push(s@.subrange(i + 1, i + 1)) =~= split_on(pre, sep).push(
                Seq::empty(),
            ));
            start = i + 1;
        } else {
            assert(s@.subrange(start as int, i + 1) =~= s@.subrange(start as int, i as int).push(
                s@[i as int],
            ));
            assert(views(pieces@).push(s@.subrange(start as int, i + 1)) =~= split_on(pre, sep).update(
                split_on(pre, sep).len() - 1,
                split_on(pre, sep).last().push(s@[i as int]),
            ));
        }
        i += 1;
    }
    let last = String::from_str(s.substring_char(start, n));
    let ghost before = views(pieces@);
    pieces.push(last);
    assert(s@.subrange(0, n as int) =~= s@);
    assert(views(pieces@) =~= before.push(last@));
    pieces
}

/// Writes the entries one after another with `;` between neighbours.
pub fn join_path(pieces: &Vec<String>) -> (r: String)
    ensures
        r@ == join_with(views(pieces@), ';'),
{
    let mut out = String::new();
    let sep = ";";
    proof {
        reveal_strlit(";");
    }
    let mut i: usize = 0;
    while i < pieces.len()
        invariant
            i <= pieces@.len(),
            sep@ == seq![';'],
            out@ == join_with(views(pieces@.subrange(0, i as int)), ';'),
        decreases pieces.len() - i,
    {
        let ghost pre = views(pieces@.subrange(0, i as int));
        let ghost next = views(pieces@.subrange(0, i + 1));
        assert(next.drop_last() =~= pre);
        if i > 0 {
            out.append(sep);
        }
        out.append(pieces[i].as_str());
        proof {
            if i == 0 {
                assert(out@ =~= next[0]);
            } else {
                assert(next.last() == pieces@[i as int]@);
            }
        }
        i += 1;
    }
    assert(pieces@.subrange(0, pieces@.len() as int) =~= pieces@);
    out
}

/// The search path with the JDK's symbolic `bin` entry (`home_ref` followed by `\bin`) placed
/// first, every entry that begins with it taken out, and all other entries kept in order.
pub fn reconcile_path(entries: &Vec<String>, home_ref: &str) -> (r: Vec<String>)
    ensures
        views(r@) == reconciled(views(entries@), bin_entry(home_ref@)),
{
    let mut bin = String::from_str(home_ref);
    let suffix = "\\bin";
    proof {
        reveal_strlit("\\bin");
    }
    bin.append(suffix);
    assert(bin@ =~= bin_entry(home_ref@));
    let mut r: Vec<String> = Vec::new();
    r.push(bin.clone());
    let mut i: usize = 0;
    while i < entries.len()
        invariant
            i <= entries@.len(),
            bin@ == bin_entry(home_ref@),
            views(r@) == seq![bin@] + entries_without(
                views(entries@.subrange(0, i as int)),
                bin@,
            ),
        decreases entries.len() - i,
    {
        let ghost pre = views(entries@.subrange(0, i as int));
        let ghost next = views(entries@.subrange(0, i + 1));
        assert(next.drop_last() =~= pre);
        assert(next.last() == entries@[i as int]@);
        if !has_prefix(entries[i].as_str(), bin.as_str()) {
            let ghost before = views(r@);
            r.push(entries[i].clone());
            assert(views(r@) =~= before.push(entries@[i as int]@));
            assert(views(r@) =~= seq![bin@] + entries_without(pre, bin@).push(entries@[i as int]@));
        }
        i += 1;
    }
    assert(entries@.subrange(0, entries@.len() as int) =~= entries@);
    r
}

} // verus!
