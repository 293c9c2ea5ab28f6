//! Structured translation trees and the fallback merge policy.
//!
//! A translation file parses to a tree of maps, sequences and scalars. The
//! merge policy combines two such trees: map entries merge key by key, a
//! sequence under a key shared by both sides is concatenated, and any other
//! collision is resolved by letting the source value replace the destination
//! value wholesale.

use vstd::prelude::*;

verus! {

broadcast use vstd::std_specs::vec::group_vec_axioms, vstd::seq::group_seq_axioms;

/// Mathematical model of a structured tree: the view of [`Yaml`].
///
/// A map is modelled as an insertion-ordered sequence of key/value pairs;
/// lookups find the first entry with a matching key.
pub ghost enum Node {
    Null,
    Bool(bool),
    Number(int),
    Text(Seq<char>),
    List(Seq<Node>),
    Dict(Seq<(Seq<char>, Node)>),
}

/// A structured value tree, the in-memory shape of a loaded translation file:
/// maps, sequences, strings, integers, booleans and null.
///
/// Map keys are strings, and entries keep their insertion order.
pub enum Yaml {
    Null,
    Bool(bool),
    Number(i64),
    Text(String),
    Sequence(Vec<Yaml>),
    Mapping(Vec<(String, Yaml)>),
}

/// The model of a tree value.
pub open spec fn node_of(y: Yaml) -> Node
    decreases y, 1int,
{
    match y {
        Yaml::Null => Node::Null,
        Yaml::Bool(b) => Node::Bool(b),
        Yaml::Number(n) => Node::Number(n as int),
        Yaml::Text(s) => Node::Text(s@),
        Yaml::Sequence(v) => {
            proof {
                assert(decreases_to!(y => v));
                assert(decreases_to!(v => v@));
            }
            Node::List(list_view(v@))
        },
        Yaml::Mapping(m) => {
            proof {
                assert(decreases_to!(y => m));
                assert(decreases_to!(m => m@));
            }
            Node::Dict(dict_view(m@))
        },
    }
}

/// The models of a sequence of tree values.
pub open spec fn list_view(v: Seq<Yaml>) -> Seq<Node>
    decreases v, 0int,
{
    if v.len() == 0 {
        Seq::empty()
    } else {
        proof {
            assert(decreases_to!(v => v[0]));
            assert(decreases_to!(v => v.subrange(1, v.len() as int)));
        }
        seq![node_of(v[0])] + list_view(v.drop_first())
    }
}

/// The models of a sequence of map entries.
pub open spec fn dict_view(m: Seq<(String, Yaml)>) -> Seq<(Seq<char>, Node)>
    decreases m, 0int,
{
    if m.len() == 0 {
        Seq::empty()
    } else {
        proof {
            assert(decreases_to!(m => m[0]));
            assert(decreases_to!(m[0] => m[0].1));
            assert(decreases_to!(m => m.subrange(1, m.len() as int)));
        }
        seq![(m[0].0@, node_of(m[0].1))] + dict_view(m.drop_first())
    }
}

impl View for Yaml {
    type V = Node;

    open spec fn view(&self) -> Node {
        node_of(*self)
    }
}

/// Whether some entry of `m` has key `k`.
pub open spec fn dict_has_key(m: Seq<(Seq<char>, Node)>, k: Seq<char>) -> bool {
    exists|i: int| 0 <= i < m.len() && m[i].0 == k
}

/// Index of the first entry of `m` with key `k`; the length of `m` if none.
pub open spec fn dict_key_at(m: Seq<(Seq<char>, Node)>, k: Seq<char>) -> int
    decreases m.len(),
{
    if m.len() == 0 {
        0
    } else if m[0].0 == k {
        0
    } else {
        1 + dict_key_at(m.drop_first(), k)
    }
}

/// The value under the first entry of `m` with key `k`.
pub open spec fn dict_get(m: Seq<(Seq<char>, Node)>, k: Seq<char>) -> Node {
    m[dict_key_at(m, k)].1
}

/// `dict_key_at` names the first position whose entry has key `k`, and a key
/// occurs in `m` exactly when that position lies inside `m`.
pub proof fn lemma_key_at_is(m: Seq<(Seq<char>, Node)>, k: Seq<char>, i: int)
    requires
        0 <= i <= m.len(),
        forall|j: int| 0 <= j < i ==> m[j].0 != k,
        i < m.len() ==> m[i].0 == k,
    ensures
        dict_key_at(m, k) == i,
        dict_has_key(m, k) <==> i < m.len(),
        i < m.len() ==> m[i].0 == k,
    decreases i,
{
    if i == 0 {
        if m.len() == 0 {
        } else if m[0].0 == k {
        }
    } else {
        lemma_key_at_is(m.drop_first(), k, i - 1);
        if i < m.len() {
            assert(m[i].0 == k);
            assert(dict_has_key(m, k));
        } else {
            if dict_has_key(m, k) {
                let w = choose|w: int| 0 <= w < m.len() && m[w].0 == k;
                assert(m[w].0 != k);
            }
        }
    }
}

/// Merge policy for two trees; `b` is the higher-priority source side.
///
/// When both sides are maps the source entries are folded in one at a time,
/// in source order; in every other case the source value replaces the
/// destination value.
pub open spec fn merge_node(a: Node, b: Node) -> Node
    decreases b, 0int, 0int,
{
    match (a, b) {
        (Node::Dict(ma), Node::Dict(mb)) => {
            proof {
                assert(decreases_to!(b => mb));
            }
            Node::Dict(merge_dict(ma, mb, mb.len() as int))
        },
        (_, _) => b,
    }
}

/// The first `n` entries of the source map `mb` merged into `ma`, in order.
pub open spec fn merge_dict(
    ma: Seq<(Seq<char>, Node)>,
    mb: Seq<(Seq<char>, Node)>,
    n: int,
) -> Seq<(Seq<char>, Node)>
    decreases mb, n, 0int,
{
    if n <= 0 || n > mb.len() {
        ma
    } else {
        proof {
            assert(decreases_to!(mb => mb[n - 1]));
            assert(decreases_to!(mb[n - 1] => mb[n - 1].1));
        }
        merge_entry(merge_dict(ma, mb, n - 1), mb[n - 1].0, mb[n - 1].1)
    }
}

/// One source entry merged into the map `m`: a sequence under a key both
/// sides carry is concatenated (destination elements first), any other shared
/// key is merged recursively, and a new key is appended at the end.
pub open spec fn merge_entry(
    m: Seq<(Seq<char>, Node)>,
    k: Seq<char>,
    v: Node,
) -> Seq<(Seq<char>, Node)>
    decreases v, 1int, 0int,
{
    if dict_has_key(m, k) {
        let i = dict_key_at(m, k);
        let cur = m[i].1;
        if cur is List && v is List {
            m.update(i, (k, Node::List(cur->List_0 + v->List_0)))
        } else {
            m.update(i, (k, merge_node(cur, v)))
        }
    } else {
        m.push((k, v))
    }
}

/// `list_view` maps `node_of` over the elements, position by position.
pub broadcast proof fn lemma_list_view(v: Seq<Yaml>)
    ensures
        (#[trigger] list_view(v)).len() == v.len(),
        forall|i: int| 0 <= i < v.len() ==> list_view(v)[i] == node_of(v[i]),
    decreases v.len(),
{
    if v.len() > 0 {
        lemma_list_view(v.drop_first());
    }
}

/// `dict_view` maps views over the entries, position by position.
pub broadcast proof fn lemma_dict_view(m: Seq<(String, Yaml)>)
    ensures
        (#[trigger] dict_view(m)).len() == m.len(),
        forall|i: int| 0 <= i < m.len() ==> dict_view(m)[i] == (m[i].0@, node_of(m[i].1)),
    decreases m.len(),
{
    if m.len() > 0 {
        lemma_dict_view(m.drop_first());
    }
}

/// Every key occurs at most once, as in a map freshly parsed or merged.
pub open spec fn unique_keys(m: Seq<(Seq<char>, Node)>) -> bool {
    forall|i: int, j: int| 0 <= i < j < m.len() ==> m[i].0 != m[j].0
}

/// What `dict_key_at` names: the first position with the key, the length of
/// the map when the key is absent.
pub proof fn lemma_key_at_props(m: Seq<(Seq<char>, Node)>, k: Seq<char>)
    ensures
        0 <= dict_key_at(m, k) <= m.len(),
        dict_has_key(m, k) ==> dict_key_at(m, k) < m.len() && m[dict_key_at(m, k)].0 == k,
        !dict_has_key(m, k) ==> dict_key_at(m, k) == m.len(),
        forall|j: int| 0 <= j < dict_key_at(m, k) ==> m[j].0 != k,
    decreases m.len(),
{
    if m.len() > 0 && m[0].0 != k {
        lemma_key_at_props(m.drop_first(), k);
        if dict_has_key(m.drop_first(), k) {
            let w = choose|w: int|
                0 <= w < m.drop_first().len() && m.drop_first()[w].0 == k;
            assert(m[w + 1].0 == k);
            assert(dict_has_key(m, k));
        }
        if dict_has_key(m, k) {
            let w = choose|w: int| 0 <= w < m.len() && m[w].0 == k;
            assert(w != 0);
            assert(m.drop_first()[w - 1].0 == k);
            assert(dict_has_key(m.drop_first(), k));
        }
        assert forall|j: int| 0 <= j < dict_key_at(m, k) implies m[j].0 != k by {
            if j > 0 {
                assert(m.drop_first()[j - 1].0 != k);
            }
        }
    }
}

/// Two maps whose entries carry the same keys in the same order agree on
/// key membership and on key positions.
proof fn lemma_key_at_same_keys(
    m1: Seq<(Seq<char>, Node)>,
    m2: Seq<(Seq<char>, Node)>,
    k: Seq<char>,
)
    requires
        m1.len() == m2.len(),
        forall|i: int| 0 <= i < m1.len() ==> m1[i].0 == m2[i].0,
    ensures
        dict_key_at(m1, k) == dict_key_at(m2, k),
        dict_has_key(m1, k) == dict_has_key(m2, k),
    decreases m1.len(),
{
    if m1.len() > 0 && m1[0].0 != k {
        lemma_key_at_same_keys(m1.drop_first(), m2.drop_first(), k);
    }
    if dict_has_key(m1, k) {
        let w = choose|w: int| 0 <= w < m1.len() && m1[w].0 == k;
        assert(m2[w].0 == k);
    }
    if dict_has_key(m2, k) {
        let w = choose|w: int| 0 <= w < m2.len() && m2[w].0 == k;
        assert(m1[w].0 == k);
    }
}

/// What one merged entry does to each key of the map: the merged key takes
/// the combined value, every other key keeps its value and its membership.
proof fn lemma_merge_entry_at(m: Seq<(Seq<char>, Node)>, k: Seq<char>, v: Node, k2: Seq<char>)
    ensures
        k2 == k ==> dict_has_key(merge_entry(m, k, v), k) && dict_get(merge_entry(m, k, v), k)
            == (if dict_has_key(m, k) {
            if dict_get(m, k) is List && v is List {
                Node::List(dict_get(m, k)->List_0 + v->List_0)
            } else {
                merge_node(dict_get(m, k), v)
            }
        } else {
            v
        }),
        k2 != k ==> dict_has_key(merge_entry(m, k, v), k2) == dict_has_key(m, k2) && (
        dict_has_key(m, k2) ==> dict_get(merge_entry(m, k, v), k2) == dict_get(m, k2)),
{
    lemma_key_at_props(m, k);
    lemma_key_at_props(m, k2);
    if dict_has_key(m, k) {
        let i = dict_key_at(m, k);
        let m2 = merge_entry(m, k, v);
        assert(m2.len() == m.len() && forall|l: int| 0 <= l < m.len() ==> m2[l].0 == m[l].0);
        lemma_key_at_same_keys(m, m2, k);
        lemma_key_at_same_keys(m, m2, k2);
    } else {
        let m2 = m.push((k, v));
        assert(forall|j: int| 0 <= j < m.len() ==> m[j].0 != k);
        if k2 == k {
            lemma_key_at_is(m2, k, m.len() as int);
        } else {
            if dict_has_key(m, k2) {
                let i2 = dict_key_at(m, k2);
                lemma_key_at_is(m2, k2, i2);
            } else {
                assert(forall|j: int| 0 <= j < m2.len() ==> m2[j].0 != k2);
                lemma_key_at_is(m2, k2, m2.len() as int);
            }
        }
    }
}

/// What a whole merge does to one key: a key only the destination holds is
/// preserved, and a key the source holds takes the combined value of the
/// destination entry (if any) and the source entry.
pub proof fn lemma_merge_dict_at(
    ma: Seq<(Seq<char>, Node)>,
    mb: Seq<(Seq<char>, Node)>,
    n: int,
    k: Seq<char>,
)
    requires
        unique_keys(mb),
        0 <= n <= mb.len(),
    ensures
        dict_key_at(mb, k) < n ==> {
            let v = mb[dict_key_at(mb, k)].1;
            &&& dict_has_key(merge_dict(ma, mb, n), k)
            &&& dict_get(merge_dict(ma, mb, n), k) == (if dict_has_key(ma, k) {
                if dict_get(ma, k) is List && v is List {
                    Node::List(dict_get(ma, k)->List_0 + v->List_0)
                } else {
                    merge_node(dict_get(ma, k), v)
                }
            } else {
                v
            })
        },
        dict_key_at(mb, k) >= n ==> dict_has_key(merge_dict(ma, mb, n), k) == dict_has_key(
            ma,
            k,
        ) && (dict_has_key(ma, k) ==> dict_get(merge_dict(ma, mb, n), k) == dict_get(ma, k)),
    decreases n,
{
    lemma_key_at_props(mb, k);
    if n > 0 {
        lemma_merge_dict_at(ma, mb, n - 1, k);
        let prev = merge_dict(ma, mb, n - 1);
        let kn = mb[n - 1].0;
        lemma_merge_entry_at(prev, kn, mb[n - 1].1, k);
        if kn == k {
            assert(dict_key_at(mb, k) == n - 1) by {
                if dict_key_at(mb, k) < n - 1 {
                    assert(mb[dict_key_at(mb, k)].0 == k);
                }
            }
        }
    }
}

/// Sequence-append law: when both sides of a merge are maps that hold a
/// sequence under the same key, the merged map holds, under that key, the
/// destination's elements followed by the source's elements: sequences
/// accumulate instead of being overwritten.
pub proof fn lemma_merge_appends_sequences(
    ma: Seq<(Seq<char>, Node)>,
    mb: Seq<(Seq<char>, Node)>,
    k: Seq<char>,
)
    requires
        unique_keys(mb),
        dict_has_key(ma, k),
        dict_has_key(mb, k),
        dict_get(ma, k) is List,
        dict_get(mb, k) is List,
    ensures
        merge_node(Node::Dict(ma), Node::Dict(mb)) == Node::Dict(
            merge_dict(ma, mb, mb.len() as int),
        ),
        dict_has_key(merge_dict(ma, mb, mb.len() as int), k),
        dict_get(merge_dict(ma, mb, mb.len() as int), k) == Node::List(
            dict_get(ma, k)->List_0 + dict_get(mb, k)->List_0,
        ),
{
    lemma_key_at_props(mb, k);
    lemma_merge_dict_at(ma, mb, mb.len() as int, k);
}

/// Scalar-override law: a source value that is neither a sequence nor a map
/// replaces whatever the destination held under that key; the most preferred
/// scalar wins.
pub proof fn lemma_merge_scalar_overrides(
    ma: Seq<(Seq<char>, Node)>,
    mb: Seq<(Seq<char>, Node)>,
    k: Seq<char>,
)
    requires
        unique_keys(mb),
        dict_has_key(mb, k),
        !(dict_get(mb, k) is List),
        !(dict_get(mb, k) is Dict),
    ensures
        merge_node(Node::Dict(ma), Node::Dict(mb)) == Node::Dict(
            merge_dict(ma, mb, mb.len() as int),
        ),
        dict_has_key(merge_dict(ma, mb, mb.len() as int), k),
        dict_get(merge_dict(ma, mb, mb.len() as int), k) == dict_get(mb, k),
{
    lemma_key_at_props(mb, k);
    lemma_merge_dict_at(ma, mb, mb.len() as int, k);
}

/// Merging an empty map into a map leaves it unchanged.
pub proof fn lemma_merge_empty_source_identity(ma: Seq<(Seq<char>, Node)>)
    ensures
        merge_node(Node::Dict(ma), Node::Dict(Seq::<(Seq<char>, Node)>::empty())) == Node::Dict(
            ma,
        ),
{
}

/// Removing an entry and inserting another at the same position updates it.
proof fn lemma_remove_insert<T>(s: Seq<T>, i: int, x: T)
    requires
        0 <= i < s.len(),
    ensures
        s.remove(i).insert(i, x) =~= s.update(i, x),
{
}

/// Position of the first entry of `m` whose key reads `k`; `m.len()` if none.
pub(crate) fn key_index(m: &Vec<(String, Yaml)>, k: &String) -> (r: usize)
    ensures
        r <= m@.len(),
        r as int == dict_key_at(dict_view(m@), k@),
        dict_has_key(dict_view(m@), k@) <==> (r as int) < m@.len(),
        (r as int) < m@.len() ==> m@[r as int].0@ == k@,
{
    broadcast use lemma_dict_view;

    let mut i: usize = 0;
    while i < m.len()
        invariant
            i <= m@.len(),
            forall|j: int| 0 <= j < i ==> m@[j].0@ != k@,
        decreases m@.len() - i,
    {
        if m[i].0 == *k {
            proof {
                lemma_dict_view(m@);
                lemma_key_at_is(dict_view(m@), k@, i as int);
            }
            return i;
        }
        i = i + 1;
    }
    proof {
        lemma_dict_view(m@);
        lemma_key_at_is(dict_view(m@), k@, m@.len() as int);
    }
    i
}

/// Merge the source tree `b` into the destination `a`, in place.
///
/// When both are maps the source entries extend and override the destination
/// key by key, except that a sequence under a shared key is appended to the
/// destination's sequence; in every other case `b` replaces `a` wholesale.
pub fn merge_yaml(a: &mut Yaml, b: Yaml)
    ensures
        final(a)@ == merge_node(old(a)@, b@),
{
    let mut taken = Yaml::Null;
    core::mem::swap(a, &mut taken);
    let merged = merge_owned(taken, b);
    *a = merged;
}

/// Owned form of the merge: returns the merge of `b` into `a`.
#[verifier::loop_isolation(false)]
fn merge_owned(a: Yaml, b: Yaml) -> (r: Yaml)
    ensures
        r@ == merge_node(a@, b@),
    decreases b,
{
    broadcast use lemma_dict_view, lemma_list_view;

    let ghost b0 = b;
    match (a, b) {
        (Yaml::Mapping(ma), Yaml::Mapping(mb)) => {
            let ghost ma0 = dict_view(ma@);
            let ghost mbs0 = mb@;
            let ghost mb0 = dict_view(mb@);
            let mut acc = ma;
            let mut src = mb;
            let ghost mut done: int = 0;
            while src.len() > 0
                invariant
                    0 <= done <= mbs0.len(),
                    src@ =~= mbs0.skip(done),
                    dict_view(acc@) == merge_dict(ma0, mb0, done),
                decreases src@.len(),
            {
                let pair = src.remove(0);
                proof {
                    assert(src@ =~= mbs0.skip(done + 1));
                    assert(pair == mbs0[done]);
                    assert(pair.0@ == mb0[done].0 && node_of(pair.1) == mb0[done].1);
                }
                let (key, value) = pair;
                let idx = key_index(&acc, &key);
                let ghost accv = dict_view(acc@);
                if idx < acc.len() {
                    let (old_key, old_value) = acc.remove(idx);
                    match (old_value, value) {
                        (Yaml::Sequence(mut ve), Yaml::Sequence(mut vb)) => {
                            proof {
                                assert(list_view(ve@ + vb@) =~= list_view(ve@) + list_view(
                                    vb@,
                                ));
                            }
                            ve.append(&mut vb);
                            acc.insert(idx, (old_key, Yaml::Sequence(ve)));
                        },
                        (ov, nv) => {
                            proof {
                                assert(decreases_to!(b0 => b0->Mapping_0));
                                assert((b0->Mapping_0)@ == mbs0);
                                assert(decreases_to!(b0->Mapping_0 => (b0->Mapping_0)@));
                                assert(decreases_to!(mbs0 => mbs0[done]));
                                assert(decreases_to!(mbs0[done] => mbs0[done].1));
                                assert(nv == mbs0[done].1);
                            }
                            let merged = merge_owned(ov, nv);
                            acc.insert(idx, (old_key, merged));
                        },
                    }
                    proof {
                        lemma_remove_insert(accv, idx as int, dict_view(acc@)[idx as int]);
                        assert(dict_view(acc@) =~= merge_entry(accv, mb0[done].0, mb0[done].1));
                    }
                } else {
                    acc.push((key, value));
                    proof {
                        assert(dict_view(acc@) =~= merge_entry(accv, mb0[done].0, mb0[done].1));
                    }
                }
                proof {
                    done = done + 1;
                    assert(dict_view(acc@) == merge_dict(ma0, mb0, done));
                }
            }
            proof {
                assert(done == mb0.len());
            }
            Yaml::Mapping(acc)
        },
        (_, other) => other,
    }
}

impl Yaml {
    /// The value under `key` when this tree is a map that has the key.
    pub fn get(&self, key: &String) -> (r: Option<&Yaml>)
        ensures
            match r {
                Some(v) => self@ is Dict && dict_has_key(self@->Dict_0, key@) && v@ == dict_get(
                    self@->Dict_0,
                    key@,
                ),
                None => !(self@ is Dict && dict_has_key(self@->Dict_0, key@)),
            },
    {
        broadcast use lemma_dict_view;

        match self {
            Yaml::Mapping(m) => {
                let idx = key_index(m, key);
                if idx < m.len() {
                    proof {
                        lemma_key_at_props(dict_view(m@), key@);
                    }
                    Some(&m[idx].1)
                } else {
                    None
                }
            },
            _ => None,
        }
    }

    /// An independent copy of the tree, with the same model.
    #[verifier::loop_isolation(false)]
    pub fn deep_clone(&self) -> (r: Yaml)
        ensures
            r@ == self@,
        decreases self,
    {
        broadcast use lemma_list_view, lemma_dict_view;

        match self {
            Yaml::Null => Yaml::Null,
            Yaml::Bool(b) => Yaml::Bool(*b),
            Yaml::Number(n) => Yaml::Number(*n),
            Yaml::Text(s) => Yaml::Text(s.clone()),
            Yaml::Sequence(v) => {
                let mut out: Vec<Yaml> = Vec::new();
                let mut i: usize = 0;
                while i < v.len()
                    invariant
                        i <= v.len(),
                        out@.len() == i,
                        forall|j: int| 0 <= j < i ==> node_of(out@[j]) == node_of(v@[j]),
                    decreases v.len() - i,
                {
                    proof {
                        assert(decreases_to!(*self => *v));
                        assert(decreases_to!(*v => v@));
                        assert(decreases_to!(v@ => v@[i as int]));
                    }
                    out.push(v[i].deep_clone());
                    i = i + 1;
                }
                proof {
                    assert(list_view(out@) =~= list_view(v@));
                }
                Yaml::Sequence(out)
            },
            Yaml::Mapping(m) => {
                let mut out: Vec<(String, Yaml)> = Vec::new();
                let mut i: usize = 0;
                while i < m.len()
                    invariant
                        i <= m.len(),
                        out@.len() == i,
                        forall|j: int| 0 <= j < i ==> out@[j].0@ == m@[j].0@ && node_of(out@[j].1)
                            == node_of(m@[j].1),
                    decreases m.len() - i,
                {
                    proof {
                        assert(decreases_to!(*self => *m));
                        assert(decreases_to!(*m => m@));
                        assert(decreases_to!(m@ => m@[i as int]));
                        assert(decreases_to!(m@[i as int] => m@[i as int].1));
                    }
                    let entry = (m[i].0.clone(), m[i].1.deep_clone());
                    out.push(entry);
                    i = i + 1;
                }
                proof {
                    assert(dict_view(out@) =~= dict_view(m@));
                }
                Yaml::Mapping(out)
            },
        }
    }
}

} // verus!
