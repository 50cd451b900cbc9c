//! Which network interfaces matter: every one, or a named subset.
use vstd::prelude::*;

use crate::text::{text_equal, text_less, text_lt, trim, trimmed, white_space};

verus! {

/// The name that stands for every interface.
pub open spec fn wildcard() -> Seq<char> {
    seq!['*']
}

/// The views of a sequence of strings.
pub open spec fn texts(v: Seq<String>) -> Seq<Seq<char>> {
    v.map_values(|s: String| s@)
}

/// Each element comes strictly before every later one.
pub open spec fn strictly_sorted(s: Seq<Seq<char>>) -> bool {
    forall|i: int, j: int| 0 <= i < j < s.len() ==> text_lt(#[trigger] s[i], #[trigger] s[j])
}

/// `t[i..j]` is one of the pieces that `t` falls into when it is split at its commas.
pub open spec fn is_piece(t: Seq<char>, i: int, j: int) -> bool {
    &&& 0 <= i <= j <= t.len()
    &&& (i == 0 || t[i - 1] == ',')
    &&& (j == t.len() || t[j] == ',')
    &&& forall|k: int| i <= k < j ==> t[k] != ','
}

/// `n` is a non-empty, trimmed piece of `t` that ends before position `end`.
pub open spec fn names_piece_before(t: Seq<char>, n: Seq<char>, end: int) -> bool {
    exists|i: int, j: int|
        #![trigger is_piece(t, i, j)]
        is_piece(t, i, j) && j < end && n == trim(t.subrange(i, j)) && n.len() > 0
}

/// The interface names that one raw value lists.
pub open spec fn names_in_token(t: Seq<char>) -> Set<Seq<char>> {
    Set::new(|n: Seq<char>| names_piece_before(t, n, t.len() + 1int))
}

/// The interface names that a list of raw values lists.
pub open spec fn requested_names(tokens: Seq<Seq<char>>) -> Set<Seq<char>> {
    Set::new(
        |n: Seq<char>|
            exists|x: int| 0 <= x < tokens.len() && #[trigger] names_in_token(tokens[x]).contains(n),
    )
}

/// The filter that a list of raw values asks for: `None` for every interface,
/// `Some(names)` for the named ones.
pub open spec fn filter_of(tokens: Seq<Seq<char>>) -> Option<Set<Seq<char>>> {
    let names = requested_names(tokens);
    if names.contains(wildcard()) || names =~= Set::empty() {
        None
    } else {
        Some(names)
    }
}

/// Names joined with commas between them.
pub open spec fn join_commas(s: Seq<Seq<char>>) -> Seq<char>
    decreases s.len(),
{
    if s.len() == 0 {
        Seq::empty()
    } else if s.len() == 1 {
        s[0]
    } else {
        join_commas(s.drop_last()) + seq![','] + s.last()
    }
}

/// Selects the network interfaces that matter.
pub enum InterfaceFilter {
    /// Every interface.
    All,
    /// Exactly the interfaces with these names, held sorted and without repeats.
    Only(Vec<String>),
}

impl InterfaceFilter {
    /// `None` for every interface, `Some(names)` for the named ones.
    pub open spec fn model(&self) -> Option<Set<Seq<char>>> {
        match self {
            InterfaceFilter::All => None,
            InterfaceFilter::Only(v) => Some(texts(v@).to_set()),
        }
    }

    /// The names of an `Only` filter form a non-empty, strictly sorted list.
    pub open spec fn wf(&self) -> bool {
        match self {
            InterfaceFilter::All => true,
            InterfaceFilter::Only(v) => v@.len() > 0 && strictly_sorted(texts(v@)),
        }
    }

    /// Whether the interface called `name` is selected.
    pub open spec fn selects(&self, name: Seq<char>) -> bool {
        match self {
            InterfaceFilter::All => true,
            InterfaceFilter::Only(v) => texts(v@).contains(name),
        }
    }
}

/// Puts `name` into the sorted list `acc`, unless it is there already.
fn insert_name(acc: &mut Vec<String>, name: String)
    requires
        strictly_sorted(texts(old(acc)@)),
    ensures
        strictly_sorted(texts(final(acc)@)),
        texts(final(acc)@).to_set() == texts(old(acc)@).to_set().insert(name@),
        final(acc)@.len() >= old(acc)@.len(),
{
    let ghost old_names = texts(acc@);
    let mut p: usize = 0;
    while p < acc.len() && text_less(acc[p].as_str(), name.as_str())
        invariant
            p <= acc@.len(),
            acc@ == old(acc)@,
            old_names == texts(acc@),
            strictly_sorted(old_names),
            forall|q: int| 0 <= q < p ==> text_lt(#[trigger] old_names[q], name@),
        decreases acc@.len() - p,
    {
        p = p + 1;
    }
    if p < acc.len() && acc[p] == name {
        assert(old_names[p as int] == name@);
        assert(old_names.to_set().insert(name@) =~= old_names.to_set());
        return;
    }
    proof {
        if p < acc@.len() {
            crate::text::lemma_text_lt_total(old_names[p as int], name@);
            assert forall|q: int| p < q < old_names.len() implies text_lt(
                name@,
                #[trigger] old_names[q],
            ) by {
                crate::text::lemma_text_lt_transitive(name@, old_names[p as int], old_names[q]);
            }
        }
    }
    acc.insert(p, name);
    proof {
        let new_names = texts(acc@);
        assert(new_names =~= old_names.insert(p as int, name@));
        assert forall|i: int, j: int| 0 <= i < j < new_names.len() implies text_lt(
            #[trigger] new_names[i],
            #[trigger] new_names[j],
        ) by {
            if j < p {
            } else if i < p && j == p {
            } else if i < p {
                assert(new_names[j] == old_names[j - 1]);
            } else if i == p {
                assert(new_names[j] == old_names[j - 1]);
            } else {
                assert(new_names[i] == old_names[i - 1]);
                assert(new_names[j] == old_names[j - 1]);
            }
        }
        assert forall|n: Seq<char>| new_names.to_set().contains(n) <==> old_names.to_set().insert(
            name@,
        ).contains(n) by {
            if new_names.contains(n) {
                let k = choose|k: int| 0 <= k < new_names.len() && new_names[k] == n;
                if k < p {
                    assert(old_names[k] == n);
                } else if k > p {
                    assert(old_names[k - 1] == n);
                }
            }
            if old_names.contains(n) {
                let k = choose|k: int| 0 <= k < old_names.len() && old_names[k] == n;
                if k < p {
                    assert(new_names[k] == n);
                } else {
                    assert(new_names[k + 1] == n);
                }
            }
            if n == name@ {
                assert(new_names[p as int] == n);
            }
        }
        assert(new_names.to_set() =~= old_names.to_set().insert(name@));
    }
}

/// A piece that ends at or after `s`, where no comma stands in `t[s..k]`
/// and `s` starts a piece, is the piece `t[s..k]`.
proof fn lemma_piece_unique(t: Seq<char>, s: int, k: int, i: int, j: int)
    requires
        0 <= s <= k <= t.len(),
        s == 0 || t[s - 1] == ',',
        forall|m: int| s <= m < k ==> t[m] != ',',
        is_piece(t, i, j),
        s <= j <= k,
    ensures
        i == s,
        j == k,
{
    if j < k {
        assert(t[j] != ',');
    }
    if i < s {
        assert(t[s - 1] != ',');
    }
    if i > s {
        assert(t[i - 1] != ',');
    }
}

/// Whether `s` is the wildcard name.
fn is_wildcard(s: &str) -> (r: bool)
    ensures
        r == (s@ == wildcard()),
{
    if s.unicode_len() == 1 && s.get_char(0) == '*' {
        assert(s@ =~= wildcard());
        true
    } else {
        false
    }
}

/// Adds the names that the raw value `t` lists to the sorted list `acc`;
/// returns whether `t` lists the wildcard.
fn add_token_names(t: &str, acc: &mut Vec<String>) -> (found_wildcard: bool)
    requires
        strictly_sorted(texts(old(acc)@)),
    ensures
        found_wildcard == names_in_token(t@).contains(wildcard()),
        !found_wildcard ==> strictly_sorted(texts(final(acc)@)),
        !found_wildcard ==> texts(final(acc)@).to_set() == texts(old(acc)@).to_set().union(
            names_in_token(t@),
        ),
{
    let n = t.unicode_len();
    let mut start: usize = 0;
    let mut k: usize = 0;
    assert(Set::new(|nm: Seq<char>| names_piece_before(t@, nm, 0)) =~= Set::empty());
    assert(texts(acc@).to_set() =~= texts(old(acc)@).to_set().union(Set::empty()));
    loop
        invariant
            n == t@.len(),
            start <= k <= n,
            start == 0 || t@[start - 1] == ',',
            forall|m: int| start <= m < k ==> t@[m] != ',',
            strictly_sorted(texts(acc@)),
            texts(acc@).to_set() == texts(old(acc)@).to_set().union(
                Set::new(|nm: Seq<char>| names_piece_before(t@, nm, start as int)),
            ),
            !names_piece_before(t@, wildcard(), start as int),
        decreases n + 1 - k,
    {
        if k == n || t.get_char(k) == ',' {
            let piece = t.substring_char(start, k);
            let name = trimmed(piece);
            let ghost nm0 = name@;
            assert(is_piece(t@, start as int, k as int));
            if is_wildcard(name.as_str()) {
                assert(names_piece_before(t@, wildcard(), n + 1));
                assert(names_in_token(t@).contains(wildcard()));
                return true;
            }
            if name.unicode_len() > 0 {
                insert_name(acc, name);
            } else {
                assert(texts(acc@).to_set().insert(nm0) =~= texts(acc@).to_set().union(
                    Set::empty(),
                ).insert(nm0));
            }
            proof {
                let before = Set::new(|nm: Seq<char>| names_piece_before(t@, nm, start as int));
                let after = Set::new(|nm: Seq<char>| names_piece_before(t@, nm, k + 1));
                let added = if nm0.len() > 0 {
                    set![nm0]
                } else {
                    Set::empty()
                };
                assert forall|nm: Seq<char>| after.contains(nm) <==> before.union(added).contains(
                    nm,
                ) by {
                    if names_piece_before(t@, nm, k + 1) {
                        let (i, j) = choose|i: int, j: int|
                            is_piece(t@, i, j) && j < k + 1 && nm == trim(t@.subrange(i, j))
                                && nm.len() > 0;
                        if j >= start {
                            lemma_piece_unique(t@, start as int, k as int, i, j);
                        }
                    }
                    if before.contains(nm) {
                        let (i, j) = choose|i: int, j: int|
                            is_piece(t@, i, j) && j < start && nm == trim(t@.subrange(i, j))
                                && nm.len() > 0;
                        assert(is_piece(t@, i, j));
                    }
                }
                assert(after =~= before.union(added));
                assert(texts(acc@).to_set() =~= texts(old(acc)@).to_set().union(after));
                if names_piece_before(t@, wildcard(), k + 1) {
                    assert(after.contains(wildcard()));
                }
            }
            if k == n {
                return false;
            }
            k = k + 1;
            start = k;
        } else {
            k = k + 1;
        }
    }
}

/// The names that `tokens` lists, after one more raw value.
proof fn lemma_requested_names_push(tokens: Seq<Seq<char>>, x: int)
    requires
        0 <= x < tokens.len(),
    ensures
        requested_names(tokens.take(x + 1)) == requested_names(tokens.take(x)).union(
            names_in_token(tokens[x]),
        ),
{
    let a = requested_names(tokens.take(x + 1));
    let b = requested_names(tokens.take(x)).union(names_in_token(tokens[x]));
    assert forall|n: Seq<char>| a.contains(n) <==> b.contains(n) by {
        if a.contains(n) {
            let y = choose|y: int|
                0 <= y < x + 1 && #[trigger] names_in_token(tokens.take(x + 1)[y]).contains(n);
            if y < x {
                assert(names_in_token(tokens.take(x)[y]).contains(n));
            }
        }
        if requested_names(tokens.take(x)).contains(n) {
            let y = choose|y: int|
                0 <= y < x && #[trigger] names_in_token(tokens.take(x)[y]).contains(n);
            assert(names_in_token(tokens.take(x + 1)[y]).contains(n));
        }
        if names_in_token(tokens[x]).contains(n) {
            assert(names_in_token(tokens.take(x + 1)[x]).contains(n));
        }
    }
    assert(a =~= b);
}

impl InterfaceFilter {
    /// Builds a filter from raw values, each a name or several names joined by
    /// commas. Pieces are trimmed of white space and empty ones are dropped.
    /// A `*` anywhere, or no name at all, selects every interface.
    pub fn from_values(values: &[String]) -> (r: InterfaceFilter)
        ensures
            r.wf(),
            r.model() == filter_of(texts(values@)),
    {
        let ghost tokens = texts(values@);
        let mut acc: Vec<String> = Vec::new();
        let mut x: usize = 0;
        assert(requested_names(tokens.take(0)) =~= Set::empty());
        assert(texts(acc@).to_set() =~= Set::empty());
        while x < values.len()
            invariant
                tokens == texts(values@),
                x <= values@.len(),
                strictly_sorted(texts(acc@)),
                texts(acc@).to_set() == requested_names(tokens.take(x as int)),
                !requested_names(tokens.take(x as int)).contains(wildcard()),
            decreases values@.len() - x,
        {
            let wild = add_token_names(values[x].as_str(), &mut acc);
            proof {
                lemma_requested_names_push(tokens, x as int);
            }
            if wild {
                assert(names_in_token(tokens[x as int]).contains(wildcard()));
                assert(requested_names(tokens).contains(wildcard()));
                return InterfaceFilter::All;
            }
            x = x + 1;
        }
        assert(tokens.take(x as int) =~= tokens);
        if acc.len() == 0 {
            assert(texts(acc@) =~= Seq::empty());
            assert(requested_names(tokens) =~= Set::empty());
            InterfaceFilter::All
        } else {
            assert(texts(acc@).to_set().contains(texts(acc@)[0]));
            InterfaceFilter::Only(acc)
        }
    }

    /// Whether the interface called `iface_name` is selected.
    pub fn matches(&self, iface_name: &str) -> (r: bool)
        ensures
            r == self.selects(iface_name@),
    {
        match self {
            InterfaceFilter::All => true,
            InterfaceFilter::Only(only) => {
                let mut i: usize = 0;
                while i < only.len()
                    invariant
                        *self == InterfaceFilter::Only(*only),
                        i <= only@.len(),
                        forall|q: int| 0 <= q < i ==> texts(only@)[q] != iface_name@,
                    decreases only@.len() - i,
                {
                    if text_equal(only[i].as_str(), iface_name) {
                        assert(texts(only@)[i as int] == iface_name@);
                        assert(texts(only@).len() == only@.len());
                        assert(texts(only@).contains(iface_name@));
                        return true;
                    }
                    i = i + 1;
                }
                false
            },
        }
    }

    /// A readable form: `*` for every interface, else the names joined by commas.
    pub fn as_log_value(&self) -> (r: String)
        ensures
            r@ == match self {
                InterfaceFilter::All => wildcard(),
                InterfaceFilter::Only(v) => join_commas(texts(v@)),
            },
    {
        match self {
            InterfaceFilter::All => {
                let r = String::from_str("*");
                proof {
                    reveal_strlit("*");
                }
                assert(r@ =~= wildcard());
                r
            },
            InterfaceFilter::Only(only) => {
                let mut r = String::new();
                let mut i: usize = 0;
                assert(texts(only@).take(0) =~= Seq::empty());
                while i < only.len()
                    invariant
                        i <= only@.len(),
                        r@ == join_commas(texts(only@).take(i as int)),
                    decreases only@.len() - i,
                {
                    let ghost before = r@;
                    if i > 0 {
                        r.append(",");
                        proof {
                            reveal_strlit(",");
                        }
                    }
                    r.append(only[i].as_str());
                    assert(texts(only@).take(i + 1).drop_last() =~= texts(only@).take(i as int));
                    if i == 0 {
                        assert(r@ =~= join_commas(texts(only@).take(1)));
                    } else {
                        assert(r@ =~= join_commas(texts(only@).take(i + 1)));
                    }
                    i = i + 1;
                }
                assert(texts(only@).take(i as int) =~= texts(only@));
                r
            },
        }
    }
}

/// A list of raw values that names the wildcard anywhere selects every interface,
/// whatever else it names.
pub proof fn lemma_wildcard_selects_all(tokens: Seq<Seq<char>>)
    requires
        requested_names(tokens).contains(wildcard()),
    ensures
        filter_of(tokens) is None,
{
}

/// A list of raw values made only of white space and commas, the empty list
/// included, selects every interface.
pub proof fn lemma_blank_values_select_all(tokens: Seq<Seq<char>>)
    requires
        forall|x: int, k: int|
            0 <= x < tokens.len() && 0 <= k < tokens[x].len() ==> white_space(
                #[trigger] tokens[x][k],
            ) || tokens[x][k] == ',',
    ensures
        filter_of(tokens) is None,
{
    assert forall|n: Seq<char>| !requested_names(tokens).contains(n) by {
        if requested_names(tokens).contains(n) {
            let x = choose|x: int|
                0 <= x < tokens.len() && #[trigger] names_in_token(tokens[x]).contains(n);
            let t = tokens[x];
            let (i, j) = choose|i: int, j: int|
                is_piece(t, i, j) && j < t.len() + 1 && n == trim(t.subrange(i, j)) && n.len()
                    > 0;
            let p = t.subrange(i, j);
            assert forall|k: int| 0 <= k < p.len() implies crate::text::white_space(
                #[trigger] p[k],
            ) by {
                assert(t[i + k] != ',');
                assert(white_space(tokens[x][i + k]) || tokens[x][i + k] == ',');
            }
            crate::text::lemma_trim_all_white(p);
        }
    }
    assert(requested_names(tokens) =~= Set::empty());
}

/// A filter built from values that name at least one interface and no wildcard
/// selects exactly the names listed, compared case-sensitively.
pub proof fn lemma_only_selects_requested(
    f: InterfaceFilter,
    tokens: Seq<Seq<char>>,
    name: Seq<char>,
)
    requires
        f.model() == filter_of(tokens),
        !requested_names(tokens).contains(wildcard()),
        requested_names(tokens) != Set::<Seq<char>>::empty(),
    ensures
        f.selects(name) == requested_names(tokens).contains(name),
{
    assert(!(requested_names(tokens) =~= Set::empty()));
    match f {
        InterfaceFilter::All => {},
        InterfaceFilter::Only(v) => {
            assert(texts(v@).contains(name) == texts(v@).to_set().contains(name));
        },
    }
}

} // verus!
