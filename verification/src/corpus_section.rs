//! Sections of a corpus: the section tuple of a node, the values that name its
//! sections, and the language features of the top section level.

use vstd::prelude::*;
use crate::corpus::Corpus;
use crate::corpus_nav::rank_at;
use crate::corpus_types::SectionOptions;
use crate::corpus_text::opt_string;
use crate::feature::{fv_at, map_keys, opt_ref_fv};
use crate::sorting::{lemma_push_contains_pub, sort_dedup, sorted_unique_strings, strictly_sorted_strs, strictly_sorted_u32};
use crate::strs::{copy_string, lemma_str_le_facts, owned, str_eq, str_le, str_lt, str_lt_exec, views};
use crate::strs::{dec_int, i64_to_string, join_spec};
use crate::value::{meta_str, meta_value, opt_fv, FValue, FeatureValue};

verus! {

impl Corpus {
    /// Some node of type `t` embeds `slot`.
    pub open spec fn has_section_at(&self, slot: u32, t: Seq<char>) -> bool {
        exists|y: u32| #[trigger] self.up_set(slot, Some(seq![t])).contains(y)
    }

    /// `o` is a node of type `t` embedding `slot` whose rank is highest among them (the
    /// outermost), or `None` when no such node exists.
    pub open spec fn section_candidate(&self, slot: u32, t: Seq<char>, o: Option<u32>) -> bool {
        match o {
            Some(x) => {
                &&& self.up_set(slot, Some(seq![t])).contains(x)
                &&& forall|y: u32| #[trigger]
                    self.up_set(slot, Some(seq![t])).contains(y) ==> rank_at(self.rank@, y, u32::MAX)
                        <= rank_at(self.rank@, x, u32::MAX)
            },
            None => !self.has_section_at(slot, t),
        }
    }

    /// The number of levels in a section tuple before the cut at a level: levels are
    /// taken while a section is found (or `fillup` is set, or at the top level), and the
    /// tuple ends at the node's own level unless `fillup` is set.
    pub open spec fn section_count(
        &self,
        nt: Seq<char>,
        slot: u32,
        types: Seq<Seq<char>>,
        fillup: bool,
        i: nat,
    ) -> nat
        decreases types.len() - i,
    {
        if i >= types.len() {
            i
        } else if types[i as int] == nt || self.has_section_at(slot, types[i as int]) || fillup || i
            == 0 {
            if types[i as int] == nt && !fillup {
                i + 1
            } else {
                self.section_count(nt, slot, types, fillup, i + 1)
            }
        } else {
            i
        }
    }

    /// The slot whose sections a node has: itself for a slot, else its first (or last)
    /// slot.
    pub open spec fn reference_slot(&self, node: u32, last: bool) -> Option<u32> {
        if node <= self.max_slot {
            Some(node)
        } else {
            let s = self.slots_spec(node);
            if s.len() == 0 {
                None
            } else if last {
                Some(s.last())
            } else {
                Some(s[0])
            }
        }
    }

    /// The section tuple of `node` is computable: section levels exist, the node is in
    /// range, has a type and a reference slot.
    pub open spec fn has_section_tuple(&self, node: u32, last: bool) -> bool {
        &&& self.otext_list("sectionTypes"@).len() > 0
        &&& 0 < node <= self.max_node
        &&& self.type_of(node) is Some
        &&& self.reference_slot(node, last) is Some
    }

    /// The length of the section tuple of `node` under `options`.
    pub open spec fn section_tuple_len(&self, node: u32, options: SectionOptions) -> nat {
        let types = self.otext_list("sectionTypes"@);
        let m = self.section_count(
            self.type_of(node)->0,
            self.reference_slot(node, options.last_slot)->0,
            types,
            options.fillup,
            0,
        );
        match options.level {
            Some(l) => if l < m {
                l as nat
            } else {
                m
            },
            None => m,
        }
    }

    /// Entry `i` of a section tuple: the node itself at its own level, otherwise the
    /// outermost section of that level around the reference slot.
    pub open spec fn section_entry_ok(&self, node: u32, last: bool, i: int, o: Option<u32>) -> bool {
        let types = self.otext_list("sectionTypes"@);
        if types[i] == self.type_of(node)->0 {
            o == Some(node)
        } else {
            self.section_candidate(self.reference_slot(node, last)->0, types[i], o)
        }
    }

    /// The sections that contain `node`, one per section level from the top: the node
    /// itself at its own level, else the outermost node of the level around the node's
    /// first (or last) slot, `None` where there is none.
    pub fn section_tuple(&self, node: u32, options: &SectionOptions) -> (r: Vec<Option<u32>>)
        ensures
            self.section_tuple_ok(node, *options, r@),
    {
        let section_types = self.section_types();
        let ghost types = views(section_types@);
        if section_types.len() == 0 || node == 0 || node > self.max_node {
            return Vec::new();
        }
        let nt = match self.node_type(node) {
            Some(t) => t,
            None => return Vec::new(),
        };
        let slot: u32 = if node <= self.max_slot {
            node
        } else {
            let s = self.slots(node);
            if s.len() == 0 {
                return Vec::new();
            }
            if options.last_slot {
                s[s.len() - 1]
            } else {
                s[0]
            }
        };
        proof {
            assert(self.reference_slot(node, options.last_slot) == Some(slot));
        }
        let fillup = options.fillup;
        let mut sections: Vec<Option<u32>> = Vec::new();
        let mut i: usize = 0;
        let mut stop = false;
        while i < section_types.len() && !stop
            invariant
                i <= section_types.len(),
                types == views(section_types@),
                types == self.otext_list("sectionTypes"@),
                self.type_of(node) == Some(nt@),
                self.reference_slot(node, options.last_slot) == Some(slot),
                fillup == options.fillup,
                stop ==> sections@.len() == self.section_count(nt@, slot, types, fillup, 0),
                !stop ==> sections@.len() == i && self.section_count(nt@, slot, types, fillup, 0)
                    == self.section_count(nt@, slot, types, fillup, i as nat),
                sections@.len() <= i,
                forall|j: int| 0 <= j < sections@.len() ==> self.section_entry_ok(node, options.last_slot, j, #[trigger] sections@[j]),
            decreases section_types.len() - i,
        {
            let st = section_types[i].as_str();
            proof {
                assert(types[i as int] == st@);
            }
            let same = str_eq(nt, st);
            let cand: Option<u32> = if same {
                Some(node)
            } else {
                let ups = self.up(slot, Some(st));
                proof {
                    assert(crate::corpus_nav::one_type(Some(st)) == Some(seq![st@]));
                    let up = self.up_set(slot, Some(seq![st@]));
                    if ups@.len() > 0 {
                        assert(ups@.contains(ups@[0]));
                        assert forall|y: u32| #[trigger] up.contains(y) implies rank_at(self.rank@, y, u32::MAX) <= rank_at(self.rank@, ups@[0], u32::MAX) by {
                            assert(ups@.contains(y));
                            let k = choose|k: int| 0 <= k < ups@.len() && ups@[k] == y;
                            assert(rank_at(self.rank@, ups@[k], u32::MAX) <= rank_at(self.rank@, ups@[0], u32::MAX));
                        }
                    } else {
                        assert forall|y: u32| !#[trigger] up.contains(y) by {
                            if up.contains(y) {
                                assert(ups@.contains(y));
                            }
                        }
                    }
                }
                if ups.len() > 0 {
                    Some(ups[0])
                } else {
                    None
                }
            };
            proof {
                assert(self.section_entry_ok(node, options.last_slot, i as int, cand));
                assert(cand is Some <==> (types[i as int] == nt@ || self.has_section_at(slot, types[i as int])));
            }
            if cand.is_some() || fillup || i == 0 {
                sections.push(cand);
                if same && !fillup {
                    stop = true;
                }
            } else {
                stop = true;
            }
            i += 1;
        }
        let cut: usize = match options.level {
            Some(l) => if l < sections.len() {
                l
            } else {
                sections.len()
            },
            None => sections.len(),
        };
        let mut out: Vec<Option<u32>> = Vec::new();
        let mut k: usize = 0;
        while k < cut
            invariant
                k <= cut <= sections@.len(),
                out@ == sections@.take(k as int),
            decreases cut - k,
        {
            out.push(sections[k]);
            proof {
                assert(sections@.take(k + 1) =~= sections@.take(k as int).push(sections@[k as int]));
            }
            k += 1;
        }
        out
    }

    /// The section tuple (camel-case name).
    #[allow(non_snake_case)]
    pub fn sectionTuple(&self, node: u32, options: &SectionOptions) -> (r: Vec<Option<u32>>)
        ensures
            self.section_tuple_ok(node, *options, r@),
    {
        self.section_tuple(node, options)
    }
}

impl Corpus {
    /// The nodes of the top section level.
    pub open spec fn section0_nodes(&self) -> Seq<u32> {
        let types = self.otext_list("sectionTypes"@);
        if types.len() == 0 {
            seq![]
        } else {
            match self.type_nodes(types[0]) {
                Some(v) => v,
                None => seq![],
            }
        }
    }

    /// Node feature `i` has language code `code` and a value on some node of the top
    /// section level.
    pub open spec fn lang_feature_at(&self, code: Seq<char>, i: int) -> bool {
        &&& 0 <= i < self.node_features@.len()
        &&& meta_value(self.node_features@[i].metadata@, "languageCode"@) == Some(code)
        &&& exists|k: int|
            0 <= k < self.section0_nodes().len() && self.node_features@[i].values@.contains_key(
                #[trigger] self.section0_nodes()[k],
            )
    }

    /// Feature `i` is, among the features of language `code`, one with the greatest name.
    pub open spec fn best_lang_feature_at(&self, code: Seq<char>, i: int) -> bool {
        &&& self.lang_feature_at(code, i)
        &&& forall|j: int| #[trigger]
            self.lang_feature_at(code, j) ==> str_le(
                self.node_features@[j].name@,
                self.node_features@[i].name@,
            )
    }

    /// The name of the feature that names top-level sections in language `code`: of
    /// several, the greatest name.
    pub open spec fn lang_feature(&self, code: Seq<char>) -> Option<Seq<char>> {
        if exists|i: int| self.best_lang_feature_at(code, i) {
            Some(self.node_features@[choose|i: int| self.best_lang_feature_at(code, i)].name@)
        } else {
            None
        }
    }

    /// The feature for top-level section names in `lang`: the one of that language, else
    /// the one without a language code, else the first section feature.
    pub open spec fn section0_feature_for(&self, lang: Seq<char>) -> Option<Seq<char>> {
        match self.lang_feature(lang) {
            Some(n) => Some(n),
            None => match self.lang_feature(seq![]) {
                Some(n) => Some(n),
                None => {
                    let sf = self.otext_list("sectionFeatures"@);
                    if sf.len() > 0 {
                        Some(sf[0])
                    } else {
                        None
                    }
                },
            },
        }
    }

    fn is_lang_feature(&self, i: usize, code: &str, nodes0: &[u32]) -> (r: bool)
        requires
            i < self.node_features@.len(),
            nodes0@ == self.section0_nodes(),
        ensures
            r == self.lang_feature_at(code@, i as int),
    {
        let f = &self.node_features[i];
        let matches = match meta_str(&f.metadata, "languageCode") {
            Some(c) => str_eq(c, code),
            None => false,
        };
        if !matches {
            return false;
        }
        let mut k: usize = 0;
        while k < nodes0.len()
            invariant
                k <= nodes0@.len(),
                i < self.node_features@.len(),
                nodes0@ == self.section0_nodes(),
                f == self.node_features@[i as int],
                meta_value(f.metadata@, "languageCode"@) == Some(code@),
                forall|j: int| 0 <= j < k ==> !f.values@.contains_key(#[trigger] nodes0@[j]),
            decreases nodes0.len() - k,
        {
            if f.v(nodes0[k]).is_some() {
                proof {
                    assert(f.values@.contains_key(self.section0_nodes()[k as int]));
                }
                return true;
            }
            k += 1;
        }
        false
    }

    /// The name of the language-`code` feature for top-level sections.
    fn lang_feature_name(&self, code: &str) -> (r: Option<String>)
        ensures
            opt_string(r) == self.lang_feature(code@),
            r is None ==> forall|j: int| !#[trigger] self.lang_feature_at(code@, j),
    {
        let types = self.section_types();
        let nodes0: &[u32] = if types.len() == 0 {
            &[]
        } else {
            proof {
                assert(views(types@)[0] == types@[0]@);
            }
            self.nodes_of_type(types[0].as_str())
        };
        let mut best: Option<usize> = None;
        let mut i: usize = 0;
        while i < self.node_features.len()
            invariant
                i <= self.node_features@.len(),
                nodes0@ == self.section0_nodes(),
                match best {
                    Some(b) => b < i && self.lang_feature_at(code@, b as int) && forall|j: int|
                        0 <= j < i && #[trigger] self.lang_feature_at(code@, j) ==> str_le(
                            self.node_features@[j].name@,
                            self.node_features@[b as int].name@,
                        ),
                    None => forall|j: int| 0 <= j < i ==> !#[trigger] self.lang_feature_at(code@, j),
                },
            decreases self.node_features.len() - i,
        {
            if self.is_lang_feature(i, code, nodes0) {
                match best {
                    Some(b) => {
                        let later = str_lt_exec(
                            self.node_features[b].name.as_str(),
                            self.node_features[i].name.as_str(),
                        );
                        proof {
                            let nb = self.node_features@[b as int].name@;
                            let ni = self.node_features@[i as int].name@;
                            lemma_str_le_facts(nb, ni, nb);
                            assert forall|j: int|
                                0 <= j < i + 1 && #[trigger] self.lang_feature_at(code@, j) implies str_le(
                                self.node_features@[j].name@,
                                if later { ni } else { nb },
                            ) by {
                                lemma_str_le_facts(self.node_features@[j].name@, nb, ni);
                                if j == i {
                                    lemma_str_le_facts(ni, nb, ni);
                                }
                            }
                        }
                        if later {
                            best = Some(i);
                        }
                    },
                    None => {
                        best = Some(i);
                    },
                }
            }
            i += 1;
        }
        match best {
            Some(b) => {
                proof {
                    assert(self.best_lang_feature_at(code@, b as int));
                    let k = choose|k: int| self.best_lang_feature_at(code@, k);
                    lemma_str_le_facts(self.node_features@[k].name@, self.node_features@[b as int].name@, self.node_features@[k].name@);
                }
                Some(copy_string(&self.node_features[b].name))
            },
            None => None,
        }
    }

    /// The feature that names top-level sections in `lang`.
    fn section_0_feature_for_lang(&self, lang: &str) -> (r: Option<String>)
        ensures
            opt_string(r) == self.section0_feature_for(lang@),
    {
        match self.lang_feature_name(lang) {
            Some(n) => Some(n),
            None => {
                let none = self.lang_feature_name("");
                proof {
                    reveal_strlit("");
                    assert(""@ =~= Seq::<char>::empty());
                }
                match none {
                    Some(n) => Some(n),
                    None => {
                        let sf = self.section_features();
                        if sf.len() > 0 {
                            proof {
                                assert(views(sf@)[0] == sf@[0]@);
                            }
                            Some(copy_string(&sf[0]))
                        } else {
                            None
                        }
                    },
                }
            },
        }
    }
}

/// The views of a list of optional values.
pub open spec fn opt_fvs(v: Seq<Option<FeatureValue>>) -> Seq<Option<FValue>> {
    v.map_values(|o: Option<FeatureValue>| opt_fv(o))
}

/// A section value as text: a string as it is, a number in decimal.
pub open spec fn section_text(v: FValue) -> Seq<char> {
    match v {
        FValue::Str(s) => s,
        FValue::Int(i) => dec_int(i as int),
    }
}

/// The texts of the present values, in order.
pub open spec fn section_texts(v: Seq<Option<FValue>>) -> Seq<Seq<char>>
    decreases v.len(),
{
    if v.len() == 0 {
        seq![]
    } else {
        let rest = section_texts(v.drop_last());
        match v.last() {
            Some(x) => rest.push(section_text(x)),
            None => rest,
        }
    }
}

impl Corpus {
    /// The feature that names the sections of level `i`: for the top level the one for
    /// `lang`, for the others the section feature of that level.
    pub open spec fn section_feature_name(&self, i: int, lang: Seq<char>) -> Option<Seq<char>> {
        let sf = self.otext_list("sectionFeatures"@);
        if i == 0 {
            match self.section0_feature_for(lang) {
                Some(n) => Some(n),
                None => if sf.len() > 0 {
                    Some(sf[0])
                } else {
                    None
                },
            }
        } else if 0 <= i < sf.len() {
            Some(sf[i])
        } else {
            None
        }
    }

    /// The value that names section `o` of level `i`.
    pub open spec fn section_value(&self, i: int, o: Option<u32>, lang: Seq<char>) -> Option<FValue> {
        match o {
            None => None,
            Some(sn) => match self.section_feature_name(i, lang) {
                Some(n) => match self.nf(n) {
                    Some(f) => fv_at(f.values@, sn),
                    None => None,
                },
                None => None,
            },
        }
    }

    /// `t` is a section tuple of `node` under `options`.
    pub open spec fn section_tuple_ok(&self, node: u32, options: SectionOptions, t: Seq<Option<u32>>) -> bool {
        if !self.has_section_tuple(node, options.last_slot) {
            t.len() == 0
        } else {
            &&& t.len() == self.section_tuple_len(node, options)
            &&& forall|i: int| 0 <= i < t.len() ==> self.section_entry_ok(node, options.last_slot, i, #[trigger] t[i])
        }
    }

    /// The names of the sections in a section tuple.
    pub open spec fn section_values_of(&self, t: Seq<Option<u32>>, lang: Seq<char>) -> Seq<Option<FValue>> {
        Seq::new(t.len(), |i: int| self.section_value(i, t[i], lang))
    }

    /// `vals` are the names of the sections of `node`: one per entry of a section tuple.
    pub open spec fn section_values_ok(
        &self,
        node: u32,
        options: SectionOptions,
        lang: Seq<char>,
        vals: Seq<Option<FValue>>,
    ) -> bool {
        exists|t: Seq<Option<u32>>| #[trigger] self.section_tuple_ok(node, options, t) && vals == self.section_values_of(t, lang)
    }

    /// The names of the sections of `node` in `lang`, one per entry of its section tuple.
    pub fn section_from_node_lang(&self, node: u32, options: &SectionOptions, lang: &str) -> (r: Vec<
        Option<FeatureValue>,
    >)
        ensures
            self.section_values_ok(node, *options, lang@, opt_fvs(r@)),
    {
        let t = self.section_tuple(node, options);
        let sf = self.section_features();
        let mut out: Vec<Option<FeatureValue>> = Vec::new();
        let mut i: usize = 0;
        while i < t.len()
            invariant
                i <= t@.len(),
                out@.len() == i,
                views(sf@) == self.otext_list("sectionFeatures"@),
                forall|j: int| 0 <= j < i ==> #[trigger] opt_fv(out@[j]) == self.section_value(j, t@[j], lang@),
            decreases t.len() - i,
        {
            let name: Option<String> = if i == 0 {
                match self.section_0_feature_for_lang(lang) {
                    Some(n) => Some(n),
                    None => if sf.len() > 0 {
                        proof {
                            assert(views(sf@)[0] == sf@[0]@);
                        }
                        Some(copy_string(&sf[0]))
                    } else {
                        None
                    },
                }
            } else if i < sf.len() {
                proof {
                    assert(views(sf@)[i as int] == sf@[i as int]@);
                }
                Some(copy_string(&sf[i]))
            } else {
                None
            };
            proof {
                assert(opt_string(name) == self.section_feature_name(i as int, lang@));
            }
            let v: Option<FeatureValue> = match t[i] {
                None => None,
                Some(sn) => match name {
                    Some(n) => match self.node_feature(n.as_str()) {
                        Some(f) => match f.v(sn) {
                            Some(x) => Some(x.duplicate()),
                            None => None,
                        },
                        None => None,
                    },
                    None => None,
                },
            };
            out.push(v);
            i += 1;
        }
        proof {
            assert(opt_fvs(out@) =~= self.section_values_of(t@, lang@));
            assert(self.section_tuple_ok(node, *options, t@));
        }
        out
    }

    /// The names of the sections of `node`, in English where the corpus has languages.
    pub fn section_from_node(&self, node: u32, options: &SectionOptions) -> (r: Vec<Option<FeatureValue>>)
        ensures
            self.section_values_ok(node, *options, "en"@, opt_fvs(r@)),
    {
        self.section_from_node_lang(node, options, "en")
    }

    /// The section names (camel-case name).
    #[allow(non_snake_case)]
    pub fn sectionFromNode(&self, node: u32, options: &SectionOptions) -> (r: Vec<Option<FeatureValue>>)
        ensures
            self.section_values_ok(node, *options, "en"@, opt_fvs(r@)),
    {
        self.section_from_node(node, options)
    }

    /// The section names of `node`, in English, as one line: the present ones joined
    /// with spaces, numbers in decimal.
    pub fn section_ref(&self, node: u32) -> (r: String)
        ensures
            exists|vals: Seq<Option<FValue>>|
                self.section_values_ok(node, SectionOptions { last_slot: false, fillup: false, level: None }, "en"@, vals)
                    && r@ == join_spec(section_texts(vals), seq![' ']),
    {
        let opts = SectionOptions { last_slot: false, fillup: false, level: None };
        let vals = self.section_from_node(node, &opts);
        let mut r = String::new();
        let mut i: usize = 0;
        let mut any = false;
        while i < vals.len()
            invariant
                i <= vals@.len(),
                r@ == join_spec(section_texts(opt_fvs(vals@).take(i as int)), seq![' ']),
                any == (section_texts(opt_fvs(vals@).take(i as int)).len() > 0),
            decreases vals.len() - i,
        {
            let ghost before = opt_fvs(vals@).take(i as int);
            proof {
                assert(opt_fvs(vals@).take(i + 1).drop_last() =~= before);
                assert(opt_fvs(vals@).take(i + 1).last() == opt_fv(vals@[i as int]));
            }
            match &vals[i] {
                Some(v) => {
                    let text = match v {
                        FeatureValue::Str(s) => copy_string(s),
                        FeatureValue::Int(n) => i64_to_string(*n),
                    };
                    let ghost prev = section_texts(before);
                    if any {
                        crate::strs::push_str(&mut r, " ");
                        proof {
                            reveal_strlit(" ");
                        }
                    }
                    crate::strs::push_str(&mut r, text.as_str());
                    proof {
                        let now = prev.push(section_text(v@));
                        assert(section_texts(opt_fvs(vals@).take(i + 1)) == now);
                        if prev.len() == 0 {
                            assert(now =~= seq![section_text(v@)]);
                        } else {
                            assert(now.drop_last() =~= prev);
                        }
                    }
                    any = true;
                },
                None => {
                    proof {
                        assert(section_texts(opt_fvs(vals@).take(i + 1)) == section_texts(before));
                    }
                },
            }
            i += 1;
        }
        proof {
            assert(opt_fvs(vals@).take(vals@.len() as int) =~= opt_fvs(vals@));
        }
        r
    }
}

impl Corpus {
    /// The type of the top section level, empty when there are no section levels.
    pub open spec fn section0_type(&self) -> Seq<char> {
        let types = self.otext_list("sectionTypes"@);
        if types.len() > 0 {
            types[0]
        } else {
            seq![]
        }
    }

    /// The name of node `x` in `lang`: its string value for the top-level section feature.
    pub open spec fn section0_name_of(&self, x: u32, lang: Seq<char>) -> Option<Seq<char>> {
        match self.section0_feature_for(lang) {
            Some(fname) => match self.nf(fname) {
                Some(f) => match fv_at(f.values@, x) {
                    Some(FValue::Str(s)) => Some(s),
                    _ => None,
                },
                None => None,
            },
            None => None,
        }
    }

    /// `o` is the top-level section of `node`: the node itself when it is of that level,
    /// else the outermost node of that level around it (`None` when there is none).
    pub open spec fn section0_node_ok(&self, node: u32, o: Option<u32>) -> bool {
        if self.type_of(node) == Some(self.section0_type()) {
            o == Some(node)
        } else {
            self.section_candidate(node, self.section0_type(), o)
        }
    }

    /// The names of the nodes in `lang`: every node with a string value for the top-level
    /// section feature, ascending.
    pub fn name_from_node(&self, lang: &str) -> (r: Vec<(u32, String)>)
        ensures
            strictly_sorted_u32(r@.map_values(|p: (u32, String)| p.0)),
            forall|i: int| 0 <= i < r@.len() ==> #[trigger] self.section0_name_of(r@[i].0, lang@) == Some(r@[i].1@),
            forall|n: u32| #[trigger] self.section0_name_of(n, lang@) is Some ==> exists|i: int| 0 <= i < r@.len() && r@[i].0 == n,
    {
        let fname = match self.section_0_feature_for_lang(lang) {
            Some(f) => f,
            None => return Vec::new(),
        };
        let f = match self.node_feature(fname.as_str()) {
            Some(f) => f,
            None => return Vec::new(),
        };
        let keys = sort_dedup(map_keys(&f.values));
        let mut r: Vec<(u32, String)> = Vec::new();
        let mut i: usize = 0;
        while i < keys.len()
            invariant
                i <= keys@.len(),
                strictly_sorted_u32(keys@),
                forall|x: u32| keys@.contains(x) <==> f.values@.contains_key(x),
                self.section0_feature_for(lang@) == Some(fname@),
                self.nf(fname@) == Some(*f),
                forall|a: int| 0 <= a < r@.len() ==> exists|b: int| 0 <= b < i && keys@[b] == #[trigger] r@[a].0,
                forall|a: int, c: int| 0 <= a < c < r@.len() ==> r@[a].0 < r@[c].0,
                forall|a: int| 0 <= a < r@.len() ==> #[trigger] self.section0_name_of(r@[a].0, lang@) == Some(r@[a].1@),
                forall|b: int| 0 <= b < i && (#[trigger] self.section0_name_of(keys@[b], lang@)) is Some ==> exists|a: int| 0 <= a < r@.len() && r@[a].0 == keys@[b],
            decreases keys.len() - i,
        {
            let n = keys[i];
            match f.v(n) {
                Some(v) => match v.as_str() {
                    Some(s) => {
                        let ghost r0 = r@;
                        proof {
                            assert forall|a: int| 0 <= a < r0.len() implies r0[a].0 < n by {
                                let b = choose|b: int| 0 <= b < i && keys@[b] == r0[a].0;
                            }
                        }
                        r.push((n, owned(s)));
                        proof {
                            assert(r@[r0.len() as int] == (n, r@[r0.len() as int].1));
                            assert forall|b: int| 0 <= b < i + 1 && (#[trigger] self.section0_name_of(keys@[b], lang@)) is Some implies exists|a: int| 0 <= a < r@.len() && r@[a].0 == keys@[b] by {
                                if b < i {
                                    let a = choose|a: int| 0 <= a < r0.len() && r0[a].0 == keys@[b];
                                    assert(r@[a] == r0[a]);
                                } else {
                                    assert(r@[r0.len() as int].0 == keys@[b]);
                                }
                            }
                            assert forall|a: int| 0 <= a < r@.len() implies exists|b: int| 0 <= b < i + 1 && keys@[b] == #[trigger] r@[a].0 by {
                                if a < r0.len() {
                                    assert(r@[a] == r0[a]);
                                    let b = choose|b: int| 0 <= b < i && keys@[b] == r0[a].0;
                                } else {
                                    assert(keys@[i as int] == r@[a].0);
                                }
                            }
                        }
                    },
                    None => {},
                },
                None => {},
            }
            i += 1;
        }
        proof {
            let ks = r@.map_values(|p: (u32, String)| p.0);
            assert forall|a: int, c: int| 0 <= a < c < ks.len() implies ks[a] < ks[c] by {
                assert(ks[a] == r@[a].0 && ks[c] == r@[c].0);
            }
            assert forall|n: u32| #[trigger] self.section0_name_of(n, lang@) is Some implies exists|i: int| 0 <= i < r@.len() && r@[i].0 == n by {
                assert(f.values@.contains_key(n));
                assert(keys@.contains(n));
                let b = choose|b: int| 0 <= b < keys@.len() && keys@[b] == n;
                assert(self.section0_name_of(keys@[b], lang@) is Some);
            }
        }
        r
    }

    /// The names of the top-level sections (camel-case name).
    #[allow(non_snake_case)]
    pub fn nameFromNode(&self, lang: &str) -> (r: Vec<(u32, String)>)
        ensures
            strictly_sorted_u32(r@.map_values(|p: (u32, String)| p.0)),
            forall|i: int| 0 <= i < r@.len() ==> #[trigger] self.section0_name_of(r@[i].0, lang@) == Some(r@[i].1@),
            forall|n: u32| #[trigger] self.section0_name_of(n, lang@) is Some ==> exists|i: int| 0 <= i < r@.len() && r@[i].0 == n,
    {
        self.name_from_node(lang)
    }

    /// The name in `lang` of the top-level section that holds `node`.
    pub fn section_0_name(&self, node: u32, lang: &str) -> (r: Option<String>)
        ensures
            !(self.otext_list("sectionTypes"@).len() > 0 && self.type_of(node) is Some) ==> r is None,
            self.otext_list("sectionTypes"@).len() > 0 && self.type_of(node) is Some ==> exists|o: Option<u32>|
                #[trigger] self.section0_node_ok(node, o) && opt_string(r) == match o {
                    Some(x) => self.section0_name_of(x, lang@),
                    None => None,
                },
    {
        let types = self.section_types();
        if types.len() == 0 {
            return None;
        }
        let t0 = types[0].as_str();
        proof {
            assert(views(types@)[0] == t0@);
        }
        let nt = match self.node_type(node) {
            Some(t) => t,
            None => return None,
        };
        let sec: Option<u32> = if str_eq(nt, t0) {
            Some(node)
        } else {
            let ups = self.u(node, Some(t0));
            proof {
                assert(crate::corpus_nav::one_type(Some(t0)) == Some(seq![t0@]));
                let up = self.up_set(node, Some(seq![t0@]));
                if ups@.len() > 0 {
                    assert(ups@.contains(ups@[0]));
                    assert forall|y: u32| #[trigger] up.contains(y) implies rank_at(self.rank@, y, u32::MAX) <= rank_at(self.rank@, ups@[0], u32::MAX) by {
                        assert(ups@.contains(y));
                        let k = choose|k: int| 0 <= k < ups@.len() && ups@[k] == y;
                        assert(rank_at(self.rank@, ups@[k], u32::MAX) <= rank_at(self.rank@, ups@[0], u32::MAX));
                    }
                } else {
                    assert forall|y: u32| !#[trigger] up.contains(y) by {
                        if up.contains(y) {
                            assert(ups@.contains(y));
                        }
                    }
                }
            }
            if ups.len() > 0 {
                Some(ups[0])
            } else {
                None
            }
        };
        proof {
            assert(self.section0_node_ok(node, sec));
        }
        let x = match sec {
            Some(x) => x,
            None => return None,
        };
        let fname = match self.section_0_feature_for_lang(lang) {
            Some(f) => f,
            None => return None,
        };
        match self.node_feature(fname.as_str()) {
            Some(f) => match f.v(x) {
                Some(v) => match v.as_str() {
                    Some(s) => Some(owned(s)),
                    None => None,
                },
                None => None,
            },
            None => None,
        }
    }

    /// The name of the top-level section of a node (traditional name).
    #[allow(non_snake_case)]
    pub fn bookName(&self, node: u32, lang: &str) -> (r: Option<String>)
        ensures
            !(self.otext_list("sectionTypes"@).len() > 0 && self.type_of(node) is Some) ==> r is None,
            self.otext_list("sectionTypes"@).len() > 0 && self.type_of(node) is Some ==> exists|o: Option<u32>|
                #[trigger] self.section0_node_ok(node, o) && opt_string(r) == match o {
                    Some(x) => self.section0_name_of(x, lang@),
                    None => None,
                },
    {
        self.section_0_name(node, lang)
    }

    /// The nodes of the top section level (none without section levels).
    pub open spec fn section0_type_nodes(&self) -> Seq<u32> {
        match self.type_nodes(self.section0_type()) {
            Some(v) => v,
            None => seq![],
        }
    }

    /// The top-level section called `name` in `lang`: of several, the last in the
    /// node list of that level.
    pub fn section_0_node(&self, name: &str, lang: &str) -> (r: Option<u32>)
        ensures
            match r {
                Some(n) => exists|k: int|
                    0 <= k < self.section0_type_nodes().len() && self.section0_type_nodes()[k] == n
                        && self.section0_name_of(n, lang@) == Some(name@)
                        && forall|j: int| k < j < self.section0_type_nodes().len()
                            ==> self.section0_name_of(#[trigger] self.section0_type_nodes()[j], lang@) != Some(name@),
                None => forall|j: int| 0 <= j < self.section0_type_nodes().len()
                    ==> self.section0_name_of(#[trigger] self.section0_type_nodes()[j], lang@) != Some(name@),
            },
    {
        let types = self.section_types();
        let nodes: &[u32] = if types.len() > 0 {
            proof {
                assert(views(types@)[0] == types@[0]@);
            }
            self.nodes_of_type(types[0].as_str())
        } else {
            let none = self.nodes_of_type("");
            proof {
                reveal_strlit("");
                assert(""@ =~= Seq::<char>::empty());
            }
            none
        };
        let fname = self.section_0_feature_for_lang(lang);
        let mut k: usize = nodes.len();
        while k > 0
            invariant
                k <= nodes@.len(),
                nodes@ == self.section0_type_nodes(),
                opt_string(fname) == self.section0_feature_for(lang@),
                forall|j: int| k <= j < nodes@.len() ==> self.section0_name_of(#[trigger] nodes@[j], lang@) != Some(name@),
            decreases k,
        {
            let n = nodes[k - 1];
            let hit = match &fname {
                Some(fnm) => match self.node_feature(fnm.as_str()) {
                    Some(f) => match f.v(n) {
                        Some(v) => match v.as_str() {
                            Some(s) => str_eq(s, name),
                            None => false,
                        },
                        None => false,
                    },
                    None => false,
                },
                None => false,
            };
            proof {
                assert(hit == (self.section0_name_of(n, lang@) == Some(name@)));
            }
            if hit {
                return Some(n);
            }
            k -= 1;
        }
        None
    }

    /// The top-level section with a given name (traditional name).
    #[allow(non_snake_case)]
    pub fn bookNode(&self, name: &str, lang: &str) -> (r: Option<u32>)
        ensures
            match r {
                Some(n) => exists|k: int|
                    0 <= k < self.section0_type_nodes().len() && self.section0_type_nodes()[k] == n
                        && self.section0_name_of(n, lang@) == Some(name@)
                        && forall|j: int| k < j < self.section0_type_nodes().len()
                            ==> self.section0_name_of(#[trigger] self.section0_type_nodes()[j], lang@) != Some(name@),
                None => forall|j: int| 0 <= j < self.section0_type_nodes().len()
                    ==> self.section0_name_of(#[trigger] self.section0_type_nodes()[j], lang@) != Some(name@),
            },
    {
        self.section_0_node(name, lang)
    }
}

/// The options under which a section lookup compares level `i`: filled up, cut after
/// that level.
pub open spec fn section_level_opts(i: int) -> SectionOptions {
    SectionOptions { last_slot: false, fillup: true, level: Some((i + 1) as usize) }
}

impl Corpus {
    /// Level `i` of the sections of `n` is named `expected`.
    pub open spec fn level_matches(&self, n: u32, i: int, expected: FValue, lang: Seq<char>) -> bool {
        exists|vals: Seq<Option<FValue>>|
            #[trigger] self.section_values_ok(n, section_level_opts(i), lang, vals) && i < vals.len()
                && vals[i] == Some(expected)
    }

    /// Level `i` of the sections of `n` is not named `expected`.
    pub open spec fn level_fails(&self, n: u32, i: int, expected: FValue, lang: Seq<char>) -> bool {
        exists|vals: Seq<Option<FValue>>|
            #[trigger] self.section_values_ok(n, section_level_opts(i), lang, vals) && !(i < vals.len()
                && vals[i] == Some(expected))
    }

    /// Some level of the heading `section` does not name the sections of `n`.
    pub open spec fn heading_fails(&self, n: u32, section: Seq<FValue>, lang: Seq<char>) -> bool {
        exists|i: int| 0 <= i < section.len() && #[trigger] self.level_fails(n, i, section[i], lang)
    }

    /// A heading can be looked up: it has between one and as many levels as there are
    /// section levels and section features.
    pub open spec fn heading_fits(&self, len: nat) -> bool {
        0 < len <= self.otext_list("sectionTypes"@).len() && len <= self.otext_list(
            "sectionFeatures"@,
        ).len()
    }

    /// The nodes of the section level of a heading of `len` levels.
    pub open spec fn heading_level_nodes(&self, len: nat) -> Seq<u32> {
        match self.type_nodes(self.otext_list("sectionTypes"@)[len - 1]) {
            Some(v) => v,
            None => seq![],
        }
    }

    /// The section with the heading `section` (names from the top level down) in `lang`:
    /// the first node of the heading's level whose sections carry these names.
    pub fn node_from_section_lang(&self, section: &[FeatureValue], lang: &str) -> (r: Option<u32>)
        ensures
            !self.heading_fits(section@.len()) ==> r is None,
            self.heading_fits(section@.len()) ==> match r {
                Some(n) => exists|k: int|
                    0 <= k < self.heading_level_nodes(section@.len()).len()
                        && self.heading_level_nodes(section@.len())[k] == n
                        && (forall|i: int| 0 <= i < section@.len() ==> #[trigger] self.level_matches(n, i, section@[i]@, lang@))
                        && forall|j: int| 0 <= j < k ==> self.heading_fails(
                            #[trigger] self.heading_level_nodes(section@.len())[j],
                            section@.map_values(|v: FeatureValue| v@),
                            lang@,
                        ),
                None => forall|j: int| 0 <= j < self.heading_level_nodes(section@.len()).len()
                    ==> self.heading_fails(
                        #[trigger] self.heading_level_nodes(section@.len())[j],
                        section@.map_values(|v: FeatureValue| v@),
                        lang@,
                    ),
            },
    {
        let types = self.section_types();
        let sf = self.section_features();
        if section.len() == 0 || section.len() > types.len() || section.len() > sf.len() {
            return None;
        }
        let target = section.len() - 1;
        proof {
            assert(views(types@)[target as int] == types@[target as int]@);
        }
        let nodes = self.nodes_of_type(types[target].as_str());
        let ghost expected = section@.map_values(|v: FeatureValue| v@);
        let mut k: usize = 0;
        while k < nodes.len()
            invariant
                k <= nodes@.len(),
                self.heading_fits(section@.len()),
                nodes@ == self.heading_level_nodes(section@.len()),
                expected == section@.map_values(|v: FeatureValue| v@),
                forall|j: int| 0 <= j < k ==> self.heading_fails(#[trigger] nodes@[j], expected, lang@),
            decreases nodes.len() - k,
        {
            let node = nodes[k];
            let mut all = true;
            let mut i: usize = 0;
            while i < section.len() && all
                invariant
                    i <= section@.len(),
                    expected == section@.map_values(|v: FeatureValue| v@),
                    all ==> forall|ii: int| 0 <= ii < i ==> #[trigger] self.level_matches(node, ii, section@[ii]@, lang@),
                    !all ==> self.heading_fails(node, expected, lang@),
                decreases section.len() - i,
            {
                let opts = SectionOptions { last_slot: false, fillup: true, level: Some(i + 1) };
                let vals = self.section_from_node_lang(node, &opts, lang);
                let ok = i < vals.len() && match &vals[i] {
                    Some(v) => v.same(&section[i]),
                    None => false,
                };
                proof {
                    assert(opts == section_level_opts(i as int));
                    let w = opt_fvs(vals@);
                    assert(self.section_values_ok(node, section_level_opts(i as int), lang@, w));
                    assert(ok == (i < w.len() && w[i as int] == Some(section@[i as int]@)));
                    assert(expected[i as int] == section@[i as int]@);
                    if ok {
                        assert(self.level_matches(node, i as int, section@[i as int]@, lang@));
                    } else {
                        assert(self.level_fails(node, i as int, expected[i as int], lang@));
                    }
                }
                if !ok {
                    all = false;
                }
                i += 1;
            }
            if all {
                return Some(node);
            }
            k += 1;
        }
        None
    }

    /// The section with a heading, in English where the corpus has languages.
    pub fn node_from_section(&self, section: &[FeatureValue]) -> (r: Option<u32>)
        ensures
            !self.heading_fits(section@.len()) ==> r is None,
            self.heading_fits(section@.len()) ==> match r {
                Some(n) => exists|k: int|
                    0 <= k < self.heading_level_nodes(section@.len()).len()
                        && self.heading_level_nodes(section@.len())[k] == n
                        && (forall|i: int| 0 <= i < section@.len() ==> #[trigger] self.level_matches(n, i, section@[i]@, "en"@))
                        && forall|j: int| 0 <= j < k ==> self.heading_fails(
                            #[trigger] self.heading_level_nodes(section@.len())[j],
                            section@.map_values(|v: FeatureValue| v@),
                            "en"@,
                        ),
                None => forall|j: int| 0 <= j < self.heading_level_nodes(section@.len()).len()
                    ==> self.heading_fails(
                        #[trigger] self.heading_level_nodes(section@.len())[j],
                        section@.map_values(|v: FeatureValue| v@),
                        "en"@,
                    ),
            },
    {
        self.node_from_section_lang(section, "en")
    }

    /// The section with a heading (camel-case name).
    #[allow(non_snake_case)]
    pub fn nodeFromSection(&self, section: &[FeatureValue]) -> (r: Option<u32>)
        ensures
            !self.heading_fits(section@.len()) ==> r is None,
            self.heading_fits(section@.len()) ==> match r {
                Some(n) => exists|k: int|
                    0 <= k < self.heading_level_nodes(section@.len()).len()
                        && self.heading_level_nodes(section@.len())[k] == n
                        && (forall|i: int| 0 <= i < section@.len() ==> #[trigger] self.level_matches(n, i, section@[i]@, "en"@))
                        && forall|j: int| 0 <= j < k ==> self.heading_fails(
                            #[trigger] self.heading_level_nodes(section@.len())[j],
                            section@.map_values(|v: FeatureValue| v@),
                            "en"@,
                        ),
                None => forall|j: int| 0 <= j < self.heading_level_nodes(section@.len()).len()
                    ==> self.heading_fails(
                        #[trigger] self.heading_level_nodes(section@.len())[j],
                        section@.map_values(|v: FeatureValue| v@),
                        "en"@,
                    ),
            },
    {
        self.node_from_section(section)
    }
}

/// The value of `key` in metadata `m`, `"default"` where it is absent or bare.
pub open spec fn meta_or_default(m: Seq<(String, Option<String>)>, key: Seq<char>) -> Seq<char> {
    match meta_value(m, key) {
        Some(v) => v,
        None => "default"@,
    }
}

/// The character sequences of a list of string pairs.
pub open spec fn pair_views(v: Seq<(String, String)>) -> Seq<(Seq<char>, Seq<char>)> {
    v.map_values(|p: (String, String)| (p.0@, p.1@))
}

impl Corpus {
    /// `n` is the last node of the top section level that is named `name` in `lang`.
    pub open spec fn last_named(&self, n: u32, name: Seq<char>, lang: Seq<char>) -> bool {
        exists|k: int|
            0 <= k < self.section0_type_nodes().len() && self.section0_type_nodes()[k] == n
                && self.section0_name_of(n, lang) == Some(name)
                && forall|j: int| k < j < self.section0_type_nodes().len()
                    ==> self.section0_name_of(#[trigger] self.section0_type_nodes()[j], lang) != Some(name)
    }

    /// Some node of the top section level is named `name` in `lang`.
    pub open spec fn names_section0(&self, name: Seq<char>, lang: Seq<char>) -> bool {
        exists|j: int|
            0 <= j < self.section0_type_nodes().len()
                && self.section0_name_of(#[trigger] self.section0_type_nodes()[j], lang) == Some(name)
    }

    /// The name of `n` in `lang`, given the feature that names top-level sections there.
    fn section0_name_with<'a>(&'a self, fname: &Option<String>, n: u32, lang: &str) -> (r: Option<&'a str>)
        requires
            opt_string(*fname) == self.section0_feature_for(lang@),
        ensures
            match r {
                Some(s) => self.section0_name_of(n, lang@) == Some(s@),
                None => self.section0_name_of(n, lang@) is None,
            },
    {
        match fname {
            Some(fnm) => match self.node_feature(fnm.as_str()) {
                Some(f) => match f.v(n) {
                    Some(v) => v.as_str(),
                    None => None,
                },
                None => None,
            },
            None => None,
        }
    }

    /// The top-level sections by name in `lang`: one entry per name, keyed by the type of
    /// the top section level and the name, ascending by name, with the last node of that
    /// level that bears the name.
    pub fn node_from_name(&self, lang: &str) -> (r: Vec<((String, String), u32)>)
        ensures
            strictly_sorted_strs(r@.map_values(|p: ((String, String), u32)| p.0.1@)),
            forall|i: int|
                0 <= i < r@.len() ==> (#[trigger] r@[i]).0.0@ == self.section0_type()
                    && self.last_named(r@[i].1, r@[i].0.1@, lang@),
            forall|name: Seq<char>| #[trigger]
                self.names_section0(name, lang@) ==> exists|i: int| 0 <= i < r@.len() && r@[i].0.1@ == name,
    {
        let types = self.section_types();
        let t0: String = if types.len() > 0 {
            proof {
                assert(views(types@)[0] == types@[0]@);
            }
            copy_string(&types[0])
        } else {
            let e = owned("");
            proof {
                reveal_strlit("");
                assert(e@ =~= Seq::<char>::empty());
            }
            e
        };
        let nodes: &[u32] = self.nodes_of_type(t0.as_str());
        let fname = self.section_0_feature_for_lang(lang);
        let mut names: Vec<String> = Vec::new();
        let mut k: usize = 0;
        while k < nodes.len()
            invariant
                k <= nodes@.len(),
                nodes@ == self.section0_type_nodes(),
                opt_string(fname) == self.section0_feature_for(lang@),
                forall|x: Seq<char>|
                    views(names@).contains(x) <==> exists|j: int|
                        0 <= j < k && self.section0_name_of(#[trigger] nodes@[j], lang@) == Some(x),
            decreases nodes.len() - k,
        {
            let ghost n0 = names@;
            let n = nodes[k];
            match self.section0_name_with(&fname, n, lang) {
                Some(s) => {
                    names.push(owned(s));
                    proof {
                        assert(views(names@) =~= views(n0).push(s@));
                    }
                },
                None => {},
            }
            proof {
                assert forall|x: Seq<char>|
                    views(names@).contains(x) <==> exists|j: int|
                        0 <= j < k + 1 && self.section0_name_of(#[trigger] nodes@[j], lang@) == Some(x) by {
                    if views(names@) != views(n0) {
                        lemma_push_contains_pub(views(n0), views(names@).last(), x);
                    }
                    if exists|j: int| 0 <= j < k + 1 && self.section0_name_of(#[trigger] nodes@[j], lang@) == Some(x) {
                        let j = choose|j: int| 0 <= j < k + 1 && self.section0_name_of(#[trigger] nodes@[j], lang@) == Some(x);
                        if j < k {
                            assert(views(n0).contains(x));
                        }
                    }
                }
            }
            k += 1;
        }
        let uniq = sorted_unique_strings(names);
        let mut r: Vec<((String, String), u32)> = Vec::new();
        let mut i: usize = 0;
        while i < uniq.len()
            invariant
                i <= uniq@.len(),
                strictly_sorted_strs(views(uniq@)),
                forall|x: Seq<char>| views(uniq@).contains(x) <==> self.names_section0(x, lang@),
                t0@ == self.section0_type(),
                r@.len() == i,
                forall|a: int|
                    0 <= a < i ==> (#[trigger] r@[a]).0.1@ == uniq@[a]@ && r@[a].0.0@ == self.section0_type()
                        && self.last_named(r@[a].1, r@[a].0.1@, lang@),
            decreases uniq.len() - i,
        {
            let name = uniq[i].as_str();
            proof {
                assert(views(uniq@)[i as int] == name@);
                assert(views(uniq@).contains(name@));
            }
            match self.section_0_node(name, lang) {
                Some(n) => {
                    r.push(((copy_string(&t0), copy_string(&uniq[i])), n));
                },
                None => {
                    proof {
                        let j = choose|j: int|
                            0 <= j < self.section0_type_nodes().len()
                                && self.section0_name_of(#[trigger] self.section0_type_nodes()[j], lang@) == Some(name@);
                        assert(self.section0_name_of(self.section0_type_nodes()[j], lang@) != Some(name@));
                    }
                },
            }
            i += 1;
        }
        proof {
            let ks = r@.map_values(|p: ((String, String), u32)| p.0.1@);
            assert(ks =~= views(uniq@));
            assert forall|name: Seq<char>| #[trigger]
                self.names_section0(name, lang@) implies exists|i: int| 0 <= i < r@.len() && r@[i].0.1@ == name by {
                assert(views(uniq@).contains(name));
                let a = choose|a: int| 0 <= a < views(uniq@).len() && views(uniq@)[a] == name;
                assert(r@[a].0.1@ == name);
            }
        }
        r
    }

    /// The top-level sections by name (camel-case name).
    #[allow(non_snake_case)]
    pub fn nodeFromName(&self, lang: &str) -> (r: Vec<((String, String), u32)>)
        ensures
            strictly_sorted_strs(r@.map_values(|p: ((String, String), u32)| p.0.1@)),
            forall|i: int|
                0 <= i < r@.len() ==> (#[trigger] r@[i]).0.0@ == self.section0_type()
                    && self.last_named(r@[i].1, r@[i].0.1@, lang@),
            forall|name: Seq<char>| #[trigger]
                self.names_section0(name, lang@) ==> exists|i: int| 0 <= i < r@.len() && r@[i].0.1@ == name,
    {
        self.node_from_name(lang)
    }
}

impl Corpus {
    /// The entry of language `code`: the `language` and `languageEnglish` metadata of the
    /// feature that names top-level sections in it, where there is such a feature.
    pub open spec fn language_entry(&self, code: Seq<char>) -> Option<Seq<(Seq<char>, Seq<char>)>> {
        match self.lang_feature(code) {
            Some(n) => match self.nf(n) {
                Some(f) => Some(
                    seq![
                        ("language"@, meta_or_default(f.metadata@, "language"@)),
                        ("languageEnglish"@, meta_or_default(f.metadata@, "languageEnglish"@)),
                    ],
                ),
                None => None,
            },
            None => None,
        }
    }

    /// The entry of language `code`, where there is one.
    fn language_entry_exec(&self, code: &str) -> (r: Option<Vec<(String, String)>>)
        ensures
            match r {
                Some(m) => self.language_entry(code@) == Some(pair_views(m@)),
                None => self.language_entry(code@) is None && forall|j: int| !#[trigger] self.lang_feature_at(code@, j),
            },
    {
        match self.lang_feature_name(code) {
            Some(fname) => match self.node_feature(fname.as_str()) {
                None => {
                    proof {
                        let k = choose|i: int| self.best_lang_feature_at(code@, i);
                        assert(self.node_features@[k].name@ == fname@);
                        crate::corpus::lemma_find_key(self.node_features@, crate::corpus::nf_key(), fname@);
                        assert((crate::corpus::nf_key())(self.node_features@[k]) == fname@);
                    }
                    None
                },
                Some(f) => {
                    let language = match meta_str(&f.metadata, "language") {
                        Some(v) => owned(v),
                        None => owned("default"),
                    };
                    let english = match meta_str(&f.metadata, "languageEnglish") {
                        Some(v) => owned(v),
                        None => owned("default"),
                    };
                    let meta = vec![
                        (owned("language"), language),
                        (owned("languageEnglish"), english),
                    ];
                    proof {
                        assert(pair_views(meta@) =~= seq![
                            ("language"@, meta_or_default(f.metadata@, "language"@)),
                            ("languageEnglish"@, meta_or_default(f.metadata@, "languageEnglish"@)),
                        ]);
                    }
                    Some(meta)
                },
            },
            None => None,
        }
    }

    /// The languages in which top-level sections are named: each language code once,
    /// ascending, with its `language` and `languageEnglish` metadata.
    pub fn languages(&self) -> (r: Vec<(String, Vec<(String, String)>)>)
        ensures
            strictly_sorted_strs(r@.map_values(|p: (String, Vec<(String, String)>)| p.0@)),
            forall|i: int|
                0 <= i < r@.len() ==> self.language_entry((#[trigger] r@[i]).0@) == Some(pair_views(r@[i].1@)),
            forall|c: Seq<char>| (#[trigger] self.language_entry(c)) is Some ==> exists|i: int|
                0 <= i < r@.len() && r@[i].0@ == c,
    {
        let types = self.section_types();
        let nodes0: &[u32] = if types.len() == 0 {
            &[]
        } else {
            proof {
                assert(views(types@)[0] == types@[0]@);
            }
            self.nodes_of_type(types[0].as_str())
        };
        let mut codes: Vec<String> = Vec::new();
        let mut i: usize = 0;
        while i < self.node_features.len()
            invariant
                i <= self.node_features@.len(),
                nodes0@ == self.section0_nodes(),
                forall|x: Seq<char>|
                    views(codes@).contains(x) <==> exists|j: int| 0 <= j < i && #[trigger] self.lang_feature_at(x, j),
            decreases self.node_features.len() - i,
        {
            let ghost c0 = codes@;
            let found = match meta_str(&self.node_features[i].metadata, "languageCode") {
                Some(c) => {
                    if self.is_lang_feature(i, c, nodes0) {
                        codes.push(owned(c));
                        proof {
                            assert(views(codes@) =~= views(c0).push(c@));
                        }
                        true
                    } else {
                        false
                    }
                },
                None => false,
            };
            proof {
                assert forall|x: Seq<char>|
                    views(codes@).contains(x) <==> exists|j: int| 0 <= j < i + 1 && #[trigger] self.lang_feature_at(x, j) by {
                    if found {
                        lemma_push_contains_pub(views(c0), views(codes@).last(), x);
                    }
                    if exists|j: int| 0 <= j < i + 1 && #[trigger] self.lang_feature_at(x, j) {
                        let j = choose|j: int| 0 <= j < i + 1 && #[trigger] self.lang_feature_at(x, j);
                        if j < i {
                            assert(views(c0).contains(x));
                        }
                    }
                }
            }
            i += 1;
        }
        let uniq = sorted_unique_strings(codes);
        let mut r: Vec<(String, Vec<(String, String)>)> = Vec::new();
        let mut k: usize = 0;
        while k < uniq.len()
            invariant
                k <= uniq@.len(),
                forall|x: Seq<char>|
                    views(uniq@).contains(x) <==> exists|j: int| #[trigger] self.lang_feature_at(x, j),
                r@.len() == k,
                forall|a: int| 0 <= a < k ==> (#[trigger] r@[a]).0@ == views(uniq@)[a],
                forall|a: int|
                    0 <= a < r@.len() ==> self.language_entry((#[trigger] r@[a]).0@) == Some(pair_views(r@[a].1@)),
            decreases uniq.len() - k,
        {
            let code = uniq[k].as_str();
            proof {
                assert(views(uniq@)[k as int] == code@);
                assert(views(uniq@).contains(code@));
            }
            let entry = self.language_entry_exec(code);
            let ghost r0 = r@;
            match entry {
                Some(m) => {
                    r.push((owned(code), m));
                    proof {
                        assert forall|a: int| 0 <= a < k + 1 implies (#[trigger] r@[a]).0@ == views(uniq@)[a] by {
                            if a < k {
                                assert(r@[a] == r0[a]);
                            }
                        }
                        assert forall|a: int| 0 <= a < r@.len() implies self.language_entry((#[trigger] r@[a]).0@)
                            == Some(pair_views(r@[a].1@)) by {
                            if a < r0.len() {
                                assert(r@[a] == r0[a]);
                            }
                        }
                    }
                },
                None => {
                    proof {
                        let j = choose|j: int| #[trigger] self.lang_feature_at(code@, j);
                    }
                },
            }
            k += 1;
        }
        proof {
            let ks = r@.map_values(|p: (String, Vec<(String, String)>)| p.0@);
            assert(ks =~= views(uniq@));
            assert forall|c: Seq<char>| (#[trigger] self.language_entry(c)) is Some implies exists|i: int|
                0 <= i < r@.len() && r@[i].0@ == c by {
                let j = choose|j: int| self.best_lang_feature_at(c, j);
                assert(self.lang_feature_at(c, j));
                assert(views(uniq@).contains(c));
                let b = choose|b: int| 0 <= b < views(uniq@).len() && views(uniq@)[b] == c;
                assert(r@[b].0@ == c);
            }
        }
        r
    }
}

} // verus!
