//! The link registry: formatting of link destinations for display, and a
//! deduplicated set of the formatted strings kept in lexicographic order.
use vstd::prelude::*;

use crate::chars::{lemma_lex_connected, lemma_lex_irrefl, lemma_lex_trans, lex_lt, str_lt};
use crate::event::LinkKind;

verus! {

/// The display string of a link, from its kind, destination URL, title and
/// reference id.
pub open spec fn link_display(
    kind: LinkKind,
    dest: Seq<char>,
    title: Seq<char>,
    id: Seq<char>,
) -> Seq<char> {
    match kind {
        LinkKind::Inline => "("@ + dest + ")"@,
        LinkKind::Reference => "["@ + id + "]"@,
        LinkKind::Shortcut => "["@ + title + "]"@,
        LinkKind::ReferenceUnknown => "[unknown]"@,
        LinkKind::Collapsed => "[collapsed]"@,
        LinkKind::CollapsedUnknown => "[collapsed unknown]"@,
        LinkKind::ShortcutUnknown => "[shortcut unknown]"@,
        LinkKind::Autolink => dest,
        LinkKind::Email => dest,
        LinkKind::WikiLink => "[wiki]"@,
    }
}

/// Build the display string of a link.
pub fn format_link(kind: LinkKind, dest: &str, title: &str, id: &str) -> (r: String)
    ensures
        r@ == link_display(kind, dest@, title@, id@),
{
    match kind {
        LinkKind::Inline => {
            let mut s = String::from_str("(");
            s.append(dest);
            s.append(")");
            s
        },
        LinkKind::Reference => {
            let mut s = String::from_str("[");
            s.append(id);
            s.append("]");
            s
        },
        LinkKind::Shortcut => {
            let mut s = String::from_str("[");
            s.append(title);
            s.append("]");
            s
        },
        LinkKind::ReferenceUnknown => String::from_str("[unknown]"),
        LinkKind::Collapsed => String::from_str("[collapsed]"),
        LinkKind::CollapsedUnknown => String::from_str("[collapsed unknown]"),
        LinkKind::ShortcutUnknown => String::from_str("[shortcut unknown]"),
        LinkKind::Autolink => dest.to_owned(),
        LinkKind::Email => dest.to_owned(),
        LinkKind::WikiLink => String::from_str("[wiki]"),
    }
}

/// A sequence of strings in strictly increasing lexicographic order: sorted
/// and free of duplicates.
pub open spec fn strictly_sorted(v: Seq<Seq<char>>) -> bool {
    forall|i: int, j: int| 0 <= i < j < v.len() ==> lex_lt(v[i], v[j])
}

/// Insertion into a strictly sorted sequence: keeps order, never duplicates.
pub open spec fn sorted_insert(v: Seq<Seq<char>>, x: Seq<char>) -> Seq<Seq<char>>
    decreases v.len(),
{
    if v.len() == 0 {
        seq![x]
    } else if lex_lt(v[0], x) {
        seq![v[0]] + sorted_insert(v.skip(1), x)
    } else if v[0] == x {
        v
    } else {
        seq![x] + v
    }
}

/// Splitting lemma: once every entry before `i` is known to precede `x`,
/// insertion happens in the tail.
proof fn lemma_sorted_insert_split(v: Seq<Seq<char>>, x: Seq<char>, i: int)
    requires
        0 <= i <= v.len(),
        forall|k: int| 0 <= k < i ==> lex_lt(v[k], x),
    ensures
        sorted_insert(v, x) == v.take(i) + sorted_insert(v.skip(i), x),
    decreases i,
{
    if i == 0 {
        assert(v.take(0) =~= Seq::<Seq<char>>::empty());
        assert(v.skip(0) =~= v);
        assert(sorted_insert(v, x) =~= v.take(0) + sorted_insert(v.skip(0), x));
    } else {
        assert(lex_lt(v[0], x));
        lemma_sorted_insert_split(v.skip(1), x, i - 1);
        assert(v.skip(1).take(i - 1) =~= v.take(i).skip(1));
        assert(v.skip(1).skip(i - 1) =~= v.skip(i));
        assert(seq![v[0]] + (v.skip(1).take(i - 1) + sorted_insert(v.skip(i), x)) =~= v.take(i)
            + sorted_insert(v.skip(i), x));
    }
}

/// Inserting a value that is already present changes nothing.
pub proof fn lemma_sorted_insert_present(v: Seq<Seq<char>>, x: Seq<char>, i: int)
    requires
        0 <= i < v.len(),
        v[i] == x,
        forall|k: int| 0 <= k < i ==> lex_lt(v[k], x),
    ensures
        sorted_insert(v, x) == v,
{
    lemma_sorted_insert_split(v, x, i);
    lemma_lex_irrefl(x);
    assert(v.skip(i)[0] == x);
    assert(sorted_insert(v.skip(i), x) == v.skip(i));
    assert(v.take(i) + v.skip(i) =~= v);
}

/// Inserting a fresh value puts it exactly at its ordered position.
pub proof fn lemma_sorted_insert_fresh(v: Seq<Seq<char>>, x: Seq<char>, i: int)
    requires
        0 <= i <= v.len(),
        forall|k: int| 0 <= k < i ==> lex_lt(v[k], x),
        i < v.len() ==> !lex_lt(v[i], x) && v[i] != x,
    ensures
        sorted_insert(v, x) == v.take(i) + seq![x] + v.skip(i),
{
    lemma_sorted_insert_split(v, x, i);
    if i < v.len() {
        assert(v.skip(i)[0] == v[i]);
        assert(sorted_insert(v.skip(i), x) == seq![x] + v.skip(i));
    } else {
        assert(v.skip(i) =~= Seq::<Seq<char>>::empty());
    }
    assert(v.take(i) + sorted_insert(v.skip(i), x) =~= v.take(i) + seq![x] + v.skip(i));
}

/// A deduplicated registry of formatted link destinations, kept in strictly
/// increasing lexicographic order. Iteration order is therefore the
/// natural order of the formatted strings, not document order.
#[derive(Debug)]
pub struct LinkRegistry {
    entries: Vec<String>,
}

impl View for LinkRegistry {
    type V = Seq<Seq<char>>;

    closed spec fn view(&self) -> Seq<Seq<char>> {
        self.entries@.map(|i: int, s: String| s@)
    }
}

impl LinkRegistry {
    /// The registry's entries are strictly sorted; this holds from
    /// construction on and every insertion preserves it.
    pub open spec fn wf(&self) -> bool {
        strictly_sorted(self@)
    }

    pub fn new() -> (r: LinkRegistry)
        ensures
            r@ == Seq::<Seq<char>>::empty(),
            r.wf(),
    {
        let r = LinkRegistry { entries: Vec::new() };
        proof {
            assert(r@ =~= Seq::<Seq<char>>::empty());
        }
        r
    }

    pub fn len(&self) -> (r: usize)
        ensures
            r == self@.len(),
    {
        self.entries.len()
    }

    /// The entry at position `i` in lexicographic order.
    pub fn get(&self, i: usize) -> (r: &String)
        requires
            i < self@.len(),
        ensures
            r@ == self@[i as int],
    {
        &self.entries[i]
    }

    /// Insert a formatted destination, keeping the entries sorted and
    /// deduplicated.
    pub fn insert(&mut self, s: String)
        requires
            old(self).wf(),
        ensures
            final(self)@ == sorted_insert(old(self)@, s@),
            final(self).wf(),
    {
        let ghost v = self@;
        let ghost x = s@;
        let mut i: usize = 0;
        loop
            invariant
                *self == *old(self),
                v == self@,
                x == s@,
                i <= self.entries.len(),
                forall|k: int| 0 <= k < i ==> lex_lt(v[k], x),
            ensures
                *self == *old(self),
                v == self@,
                i <= self.entries.len(),
                forall|k: int| 0 <= k < i ==> lex_lt(v[k], x),
                i < self.entries.len() ==> !lex_lt(v[i as int], x),
            decreases self.entries.len() - i,
        {
            if i >= self.entries.len() {
                break ;
            }
            proof {
                assert(self@[i as int] == self.entries@[i as int]@);
            }
            let below = str_lt(self.entries[i].as_str(), s.as_str());
            proof {
                assert(below == lex_lt(v[i as int], x));
            }
            if !below {
                break ;
            }
            i = i + 1;
        }
        let found = i < self.entries.len() && self.entries[i].eq(&s);
        if found {
            proof {
                lemma_sorted_insert_present(v, x, i as int);
            }
        } else {
            proof {
                lemma_sorted_insert_fresh(v, x, i as int);
            }
            self.entries.insert(i, s);
            proof {
                let n = i as int;
                assert(self@ =~= v.take(n) + seq![x] + v.skip(n));
                let r = v.take(n) + seq![x] + v.skip(n);
                if n < v.len() {
                    lemma_lex_connected(v[n], x);
                    assert(lex_lt(x, v[n]));
                }
                assert forall|p: int, q: int| 0 <= p < q < r.len() implies lex_lt(
                    r[p],
                    r[q],
                ) by {
                    if q < n {
                        assert(r[p] == v[p] && r[q] == v[q]);
                    } else if p < n && q == n {
                        assert(r[p] == v[p] && r[q] == x);
                    } else if p < n && q > n {
                        assert(r[p] == v[p] && r[q] == v[q - 1]);
                        if q - 1 == p {
                            assert(false);
                        }
                        assert(lex_lt(v[p], v[q - 1]));
                    } else if p == n && q > n {
                        assert(r[p] == x && r[q] == v[q - 1]);
                        if q - 1 > n {
                            lemma_lex_trans(x, v[n], v[q - 1]);
                        }
                    } else {
                        assert(p > n && q > n);
                        assert(r[p] == v[p - 1] && r[q] == v[q - 1]);
                    }
                }
            }
        }
    }

    /// Whether the registry holds the given formatted destination.
    pub open spec fn contains_spec(&self, x: Seq<char>) -> bool {
        exists|i: int| 0 <= i < self@.len() && self@[i] == x
    }
}

/// Insertion leaves exactly the old values plus the new one, whether or
/// not it was already present.
pub proof fn lemma_insert_contains(v: Seq<Seq<char>>, x: Seq<char>)
    ensures
        forall|y: Seq<char>| #[trigger] sorted_insert(v, x).contains(y) <==> v.contains(y) || y
            == x,
    decreases v.len(),
{
    let r = sorted_insert(v, x);
    if v.len() == 0 {
        assert(r[0] == x);
        assert forall|y: Seq<char>| #[trigger] r.contains(y) implies v.contains(y) || y == x by {}
        assert(r.contains(x));
    } else if lex_lt(v[0], x) {
        let tail = v.skip(1);
        lemma_insert_contains(tail, x);
        let tr = sorted_insert(tail, x);
        assert(r =~= seq![v[0]] + tr);
        assert forall|y: Seq<char>| #[trigger] r.contains(y) implies v.contains(y) || y == x by {
            let k = choose|k: int| 0 <= k < r.len() && r[k] == y;
            if k == 0 {
                assert(v[0] == y);
            } else {
                assert(tr[k - 1] == y);
                assert(tr.contains(y));
                if tail.contains(y) {
                    let m = choose|m: int| 0 <= m < tail.len() && tail[m] == y;
                    assert(v[m + 1] == y);
                }
            }
        }
        assert forall|y: Seq<char>| v.contains(y) || y == x implies #[trigger] r.contains(y) by {
            if y == x || !v.contains(y) {
                assert(tr.contains(x));
                let m = choose|m: int| 0 <= m < tr.len() && tr[m] == x;
                assert(r[m + 1] == x);
            } else {
                let k = choose|k: int| 0 <= k < v.len() && v[k] == y;
                if k == 0 {
                    assert(r[0] == y);
                } else {
                    assert(tail[k - 1] == y);
                    assert(tail.contains(y));
                    assert(tr.contains(y));
                    let m = choose|m: int| 0 <= m < tr.len() && tr[m] == y;
                    assert(r[m + 1] == y);
                }
            }
        }
    } else if v[0] == x {
        assert(r == v);
        assert(v.contains(x)) by {
            assert(v[0] == x);
        }
    } else {
        assert(r =~= seq![x] + v);
        assert forall|y: Seq<char>| #[trigger] r.contains(y) implies v.contains(y) || y == x by {
            let k = choose|k: int| 0 <= k < r.len() && r[k] == y;
            if k > 0 {
                assert(v[k - 1] == y);
            }
        }
        assert forall|y: Seq<char>| v.contains(y) || y == x implies #[trigger] r.contains(y) by {
            if y == x {
                assert(r[0] == y);
            } else {
                let k = choose|k: int| 0 <= k < v.len() && v[k] == y;
                assert(r[k + 1] == y);
            }
        }
    }
}

/// Insertion keeps the entries strictly sorted: the registry is always
/// iterable in lexicographic order of the formatted strings.
pub proof fn lemma_insert_sorted(v: Seq<Seq<char>>, x: Seq<char>)
    requires
        strictly_sorted(v),
    ensures
        strictly_sorted(sorted_insert(v, x)),
    decreases v.len(),
{
    let r = sorted_insert(v, x);
    if v.len() == 0 {
    } else if lex_lt(v[0], x) {
        let tail = v.skip(1);
        assert forall|p: int, q: int| 0 <= p < q < tail.len() implies lex_lt(
            tail[p],
            tail[q],
        ) by {
            assert(v[p + 1] == tail[p] && v[q + 1] == tail[q]);
        }
        lemma_insert_sorted(tail, x);
        lemma_insert_contains(tail, x);
        let tr = sorted_insert(tail, x);
        assert(r =~= seq![v[0]] + tr);
        assert forall|p: int, q: int| 0 <= p < q < r.len() implies lex_lt(r[p], r[q]) by {
            if p == 0 {
                assert(r[q] == tr[q - 1]);
                assert(tr.contains(tr[q - 1]));
                if tr[q - 1] == x {
                    assert(lex_lt(v[0], r[q]));
                } else {
                    assert(tail.contains(tr[q - 1]));
                    let m = choose|m: int| 0 <= m < tail.len() && tail[m] == tr[q - 1];
                    assert(v[m + 1] == tr[q - 1]);
                    assert(lex_lt(v[0], v[m + 1]));
                }
            } else {
                assert(r[p] == tr[p - 1] && r[q] == tr[q - 1]);
            }
        }
    } else if v[0] == x {
    } else {
        lemma_lex_connected(x, v[0]);
        assert(lex_lt(x, v[0]));
        assert(r =~= seq![x] + v);
        assert forall|p: int, q: int| 0 <= p < q < r.len() implies lex_lt(r[p], r[q]) by {
            if p == 0 {
                assert(r[q] == v[q - 1]);
                if q - 1 > 0 {
                    lemma_lex_trans(x, v[0], v[q - 1]);
                }
            } else {
                assert(r[p] == v[p - 1] && r[q] == v[q - 1]);
            }
        }
    }
}

/// Inserting a destination that is already registered changes nothing:
/// identical formatted destinations collapse to one entry.
pub proof fn lemma_insert_idempotent(v: Seq<Seq<char>>, x: Seq<char>)
    requires
        strictly_sorted(v),
    ensures
        sorted_insert(sorted_insert(v, x), x) == sorted_insert(v, x),
{
    let r = sorted_insert(v, x);
    lemma_insert_sorted(v, x);
    lemma_insert_contains(v, x);
    assert(r.contains(x));
    let k = choose|k: int| 0 <= k < r.len() && r[k] == x;
    assert forall|m: int| 0 <= m < k implies lex_lt(r[m], x) by {
        assert(lex_lt(r[m], r[k]));
    }
    lemma_sorted_insert_present(r, x, k);
}

/// What values an insertion leaves in the registry: exactly the old ones
/// and the new one. Together with `strictly_sorted` this is the dedup law:
/// `N` distinct destinations give `N` entries, in lexicographic order.
pub proof fn lemma_insert_grows(v: Seq<Seq<char>>, x: Seq<char>)
    requires
        strictly_sorted(v),
        !v.contains(x),
    ensures
        sorted_insert(v, x).len() == v.len() + 1,
        forall|y: Seq<char>| #[trigger] sorted_insert(v, x).contains(y) <==> v.contains(y) || y
            == x,
    decreases v.len(),
{
    let r = sorted_insert(v, x);
    if v.len() == 0 {
        assert(r =~= seq![x]);
        assert(r[0] == x);
        assert forall|y: Seq<char>| #[trigger] r.contains(y) implies v.contains(y) || y == x by {}
        assert(r.contains(x));
    } else if lex_lt(v[0], x) {
        let tail = v.skip(1);
        assert forall|p: int, q: int| 0 <= p < q < tail.len() implies lex_lt(
            tail[p],
            tail[q],
        ) by {
            assert(v[p + 1] == tail[p] && v[q + 1] == tail[q]);
        }
        if tail.contains(x) {
            let k = choose|k: int| 0 <= k < tail.len() && tail[k] == x;
            assert(v[k + 1] == x);
            assert(false);
        }
        lemma_insert_grows(tail, x);
        let tr = sorted_insert(tail, x);
        assert(r =~= seq![v[0]] + tr);
        assert forall|y: Seq<char>| #[trigger] r.contains(y) implies v.contains(y) || y == x by {
            let k = choose|k: int| 0 <= k < r.len() && r[k] == y;
            if k == 0 {
                assert(v[0] == y);
            } else {
                assert(tr[k - 1] == y);
                assert(tr.contains(y));
                if tail.contains(y) {
                    let m = choose|m: int| 0 <= m < tail.len() && tail[m] == y;
                    assert(v[m + 1] == y);
                }
            }
        }
        assert forall|y: Seq<char>| v.contains(y) || y == x implies #[trigger] r.contains(y) by {
            if y == x || !v.contains(y) {
                assert(tr.contains(x));
                let m = choose|m: int| 0 <= m < tr.len() && tr[m] == x;
                assert(r[m + 1] == x);
            } else {
                let k = choose|k: int| 0 <= k < v.len() && v[k] == y;
                if k == 0 {
                    assert(r[0] == y);
                } else {
                    assert(tail[k - 1] == y);
                    assert(tail.contains(y));
                    assert(tr.contains(y));
                    let m = choose|m: int| 0 <= m < tr.len() && tr[m] == y;
                    assert(r[m + 1] == y);
                }
            }
        }
    } else {
        assert(v[0] != x) by {
            if v[0] == x {
                assert(v.contains(x));
            }
        }
        assert(r =~= seq![x] + v);
        assert forall|y: Seq<char>| #[trigger] r.contains(y) implies v.contains(y) || y == x by {
            let k = choose|k: int| 0 <= k < r.len() && r[k] == y;
            if k > 0 {
                assert(v[k - 1] == y);
            }
        }
        assert forall|y: Seq<char>| v.contains(y) || y == x implies #[trigger] r.contains(y) by {
            if y == x {
                assert(r[0] == y);
            } else {
                let k = choose|k: int| 0 <= k < v.len() && v[k] == y;
                assert(r[k + 1] == y);
            }
        }
    }
}

} // verus!
