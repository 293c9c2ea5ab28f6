//! The translation store and language resolution.
//!
//! The store maps language codes to loaded translation trees. Resolution
//! walks an ordered preference list, collects the trees of the languages the
//! store knows, and merges them so that more preferred languages override
//! less preferred ones, key by key.

use vstd::prelude::*;

use crate::parse::LangModel;
use crate::parse::Language;
use crate::parse::lang_views;
use crate::tree::Node;
use crate::tree::Yaml;
use crate::tree::dict_get;
use crate::tree::dict_has_key;
use crate::tree::dict_key_at;
use crate::tree::dict_view;
use crate::tree::key_index;
use crate::tree::lemma_dict_view;
use crate::tree::list_view;
use crate::tree::merge_node;
use crate::tree::merge_yaml;

verus! {

broadcast use vstd::std_specs::vec::group_vec_axioms, vstd::seq::group_seq_axioms;

/// A store of per-language translation trees, keyed by language code.
///
/// Codes are kept in insertion order; each code occurs at most once, because
/// loading a code again replaces its tree.
pub struct Y10n {
    translations: Vec<(String, Yaml)>,
}

impl View for Y10n {
    type V = Seq<(Seq<char>, Node)>;

    closed spec fn view(&self) -> Seq<(Seq<char>, Node)> {
        dict_view(self.translations@)
    }
}

/// A store after one language's tree is loaded: an existing code keeps its
/// place and takes the new tree, a new code is appended.
pub open spec fn store_insert(
    m: Seq<(Seq<char>, Node)>,
    k: Seq<char>,
    v: Node,
) -> Seq<(Seq<char>, Node)> {
    if dict_has_key(m, k) {
        m.update(dict_key_at(m, k), (k, v))
    } else {
        m.push((k, v))
    }
}

/// The stored trees of the languages in `langs`, in preference order;
/// languages the store does not know contribute nothing.
pub open spec fn collect_trees(store: Seq<(Seq<char>, Node)>, langs: Seq<LangModel>) -> Seq<Node>
    decreases langs.len(),
{
    if langs.len() == 0 {
        Seq::<Node>::empty()
    } else {
        collect_trees(store, langs.drop_last()) + (if dict_has_key(store, langs.last().code) {
            seq![dict_get(store, langs.last().code)]
        } else {
            Seq::<Node>::empty()
        })
    }
}

/// The merge of the trees of `ts` into a fresh empty map, taken from the
/// last (least preferred) to the first, so that earlier trees override.
pub open spec fn merge_rev(ts: Seq<Node>) -> Node
    decreases ts.len(),
{
    if ts.len() == 0 {
        Node::Dict(Seq::<(Seq<char>, Node)>::empty())
    } else {
        merge_node(merge_rev(ts.drop_first()), ts[0])
    }
}

/// The tree a preference list resolves to against a store.
pub open spec fn resolve_spec(store: Seq<(Seq<char>, Node)>, langs: Seq<LangModel>) -> Node {
    merge_rev(collect_trees(store, langs))
}

/// Resolving a preference list none of whose languages the store knows
/// yields the empty tree.
pub proof fn lemma_resolve_no_matches_empty(
    store: Seq<(Seq<char>, Node)>,
    langs: Seq<LangModel>,
)
    requires
        forall|i: int| 0 <= i < langs.len() ==> !dict_has_key(store, #[trigger] langs[i].code),
    ensures
        resolve_spec(store, langs) == Node::Dict(Seq::<(Seq<char>, Node)>::empty()),
    decreases langs.len(),
{
    if langs.len() == 0 {
    } else {
        lemma_resolve_no_matches_empty(store, langs.drop_last());
        assert(collect_trees(store, langs) =~= collect_trees(store, langs.drop_last()));
    }
}

/// Resolving an empty preference list yields the empty tree: no language
/// contributes.
pub proof fn lemma_resolve_empty_prefs(store: Seq<(Seq<char>, Node)>)
    ensures
        resolve_spec(store, Seq::<LangModel>::empty()) == Node::Dict(
            Seq::<(Seq<char>, Node)>::empty(),
        ),
{
}

impl Y10n {
    /// An empty store.
    pub fn new() -> (r: Self)
        ensures
            r@ == Seq::<(Seq<char>, Node)>::empty(),
    {
        let translations: Vec<(String, Yaml)> = Vec::new();
        Y10n { translations }
    }

    /// Load one language's tree under its code.
    pub fn insert_translation(&mut self, code: String, tree: Yaml)
        ensures
            final(self)@ == store_insert(old(self)@, code@, tree@),
    {
        broadcast use lemma_dict_view;

        let idx = key_index(&self.translations, &code);
        let ghost before = dict_view(self.translations@);
        if idx < self.translations.len() {
            self.translations.remove(idx);
            self.translations.insert(idx, (code, tree));
            proof {
                assert(dict_view(self.translations@) =~= before.update(
                    idx as int,
                    (code@, tree@),
                ));
            }
        } else {
            self.translations.push((code, tree));
            proof {
                assert(dict_view(self.translations@) =~= before.push((code@, tree@)));
            }
        }
    }

    /// The codes of all loaded languages, in insertion order.
    #[verifier::loop_isolation(false)]
    pub fn languages(&self) -> (r: Vec<String>)
        ensures
            r@.len() == self@.len(),
            forall|i: int| 0 <= i < r@.len() ==> r@[i]@ == self@[i].0,
    {
        proof {
            lemma_dict_view(self.translations@);
        }
        let mut out: Vec<String> = Vec::new();
        let mut i: usize = 0;
        while i < self.translations.len()
            invariant
                i <= self.translations@.len(),
                out@.len() == i,
                forall|j: int| 0 <= j < i ==> out@[j]@ == self@[j].0,
            decreases self.translations@.len() - i,
        {
            out.push(self.translations[i].0.clone());
            i = i + 1;
        }
        out
    }

    /// The merged tree for the given preference order: for each language the
    /// store knows, its tree contributes, and earlier languages win over
    /// later ones key by key, except that sequences under a shared key
    /// accumulate.
    #[verifier::loop_isolation(false)]
    pub fn localize(&self, languages: &[Language]) -> (r: Yaml)
        ensures
            r@ == resolve_spec(self@, lang_views(languages@)),
    {
        broadcast use lemma_dict_view, crate::tree::lemma_list_view;

        let ghost vs = lang_views(languages@);
        let mut values: Vec<Yaml> = Vec::new();
        let mut i: usize = 0;
        while i < languages.len()
            invariant
                i <= languages@.len(),
                list_view(values@) == collect_trees(self@, vs.take(i as int)),
            decreases languages@.len() - i,
        {
            let lang = vstd::slice::slice_index_get(languages, i);
            let idx = key_index(&self.translations, &lang.code);
            let ghost before = list_view(values@);
            if idx < self.translations.len() {
                values.push(self.translations[idx].1.deep_clone());
                proof {
                    assert(list_view(values@) =~= before.push(dict_get(self@, vs[i as int].code)));
                }
            }
            proof {
                assert(vs.take(i + 1).drop_last() =~= vs.take(i as int));
                assert(vs.take(i + 1).last() == vs[i as int]);
                assert(list_view(values@) =~= collect_trees(self@, vs.take(i + 1)));
            }
            i = i + 1;
        }
        proof {
            assert(vs.take(vs.len() as int) =~= vs);
        }

        let ghost collected = list_view(values@);
        let mut map = Yaml::Mapping(Vec::new());
        proof {
            assert(collected.skip(values@.len() as int) =~= Seq::<Node>::empty());
            assert(dict_view(Seq::<(String, Yaml)>::empty()) =~= Seq::<(Seq<char>, Node)>::empty());
        }
        while values.len() > 0
            invariant
                values@.len() <= collected.len(),
                list_view(values@) == collected.take(values@.len() as int),
                map@ == merge_rev(collected.skip(values@.len() as int)),
            decreases values@.len(),
        {
            let ghost len0 = values@.len() as int;
            let ghost prev = values@;
            let v = values.pop().unwrap();
            proof {
                crate::tree::lemma_list_view(prev);
                assert(list_view(values@) =~= collected.take(len0 - 1));
                assert(v == prev[len0 - 1]);
                assert(list_view(prev)[len0 - 1] == crate::tree::node_of(prev[len0 - 1]));
                assert(list_view(prev) == collected.take(len0));
                assert(v@ == collected[len0 - 1]);
                assert(collected.skip(len0 - 1).drop_first() =~= collected.skip(len0));
                assert(collected.skip(len0 - 1)[0] == collected[len0 - 1]);
            }
            merge_yaml(&mut map, v);
        }
        proof {
            assert(collected.skip(0) =~= collected);
        }
        map
    }
}

} // verus!
