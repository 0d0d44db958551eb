//! The name-map builder: top-level declarations to a dictionary from
//! identifier to entry.
//!
//! A word whose value is a block becomes a `Word` entry carrying the
//! block and the set of bare identifiers its direct children reference
//! (the static call dependencies, duplicates collapsed); a bare
//! identifier value becomes an alias; a string or numeric literal value
//! becomes a constant; any other value shape is a fatal build error.
//! Declaring the same identifier twice is a fatal `DuplicateDeclaration`:
//! a silent overwrite would make program behaviour depend on declaration
//! order. Typing annotations and retained comments pass the builder by.

use vstd::prelude::*;
use crate::errors::{NameMapError, NameMapErrorV};
use crate::ast::{ASTNode, ASTV, TopLevelNode, TopLevelV, ast_views, ast_view, top_views, top_view,
    clone_ast_vec};
use crate::numeric_literal::{NumericLiteral, NumericLiteralV};

verus! {

broadcast use vstd::std_specs::vec::group_vec_axioms, vstd::seq::group_seq_axioms;

/// One entry of the name map.
#[derive(Debug, PartialEq)]
pub enum NameMapNode {
    /// An executable word: its body and the identifiers the body's
    /// direct children reference.
    Word { implementation: Vec<ASTNode>, depends_on: Vec<String> },
    /// A word standing for another word.
    AliasedWord(String),
    StringConst(String),
    NumericConst(NumericLiteral),
}

/// Mathematical image of a `NameMapNode`.
pub enum NameMapNodeV {
    Word { implementation: Seq<ASTV>, depends_on: Seq<Seq<char>> },
    AliasedWord(Seq<char>),
    StringConst(Seq<char>),
    NumericConst(NumericLiteralV),
}

pub open spec fn strs_view(ss: Seq<String>) -> Seq<Seq<char>> {
    ss.map_values(|s: String| s@)
}

impl View for NameMapNode {
    type V = NameMapNodeV;

    open spec fn view(&self) -> NameMapNodeV {
        match self {
            NameMapNode::Word { implementation, depends_on } => NameMapNodeV::Word {
                implementation: ast_views(implementation@),
                depends_on: strs_view(depends_on@),
            },
            NameMapNode::AliasedWord(s) => NameMapNodeV::AliasedWord(s@),
            NameMapNode::StringConst(s) => NameMapNodeV::StringConst(s@),
            NameMapNode::NumericConst(l) => NameMapNodeV::NumericConst(l@),
        }
    }
}

// ---------------------------------------------------------------------------
// Dependency extraction
// ---------------------------------------------------------------------------

/// Collects the bare identifiers among `body[i..]`, first occurrence
/// first, duplicates collapsed into `acc`.
pub open spec fn deps_from(body: Seq<ASTV>, i: int, acc: Seq<Seq<char>>) -> Seq<Seq<char>>
    decreases body.len() - i,
{
    if i < 0 || i >= body.len() {
        acc
    } else {
        match body[i] {
            ASTV::Ident(s) => {
                if acc.contains(s) {
                    deps_from(body, i + 1, acc)
                } else {
                    deps_from(body, i + 1, acc.push(s))
                }
            },
            _ => deps_from(body, i + 1, acc),
        }
    }
}

/// The dependency list of a word body: every bare identifier among its
/// direct children, duplicates collapsed.
pub open spec fn deps_of(body: Seq<ASTV>) -> Seq<Seq<char>> {
    deps_from(body, 0, Seq::empty())
}

/// Whether `v` holds a string whose characters are `s`.
fn contains_string(v: &Vec<String>, s: &String) -> (r: bool)
    ensures
        r == strs_view(v@).contains(s@),
{
    let n = v.len();
    let mut j: usize = 0;
    while j < n
        invariant
            j <= n == v@.len(),
            forall|k: int| 0 <= k < j ==> (#[trigger] v@[k])@ != s@,
        decreases n - j,
    {
        if v[j].eq(s) {
            proof {
                assert(strs_view(v@)[j as int] == s@);
            }
            return true;
        }
        j = j + 1;
    }
    proof {
        if strs_view(v@).contains(s@) {
            let k = choose|k: int| 0 <= k < strs_view(v@).len() && strs_view(v@)[k] == s@;
            assert(v@[k]@ == s@);
        }
    }
    false
}

/// Collects a word body's dependency list.
fn extract_deps(body: &Vec<ASTNode>) -> (r: Vec<String>)
    ensures
        strs_view(r@) == deps_of(ast_views(body@)),
{
    let ghost bv = ast_views(body@);
    let n = body.len();
    let mut out: Vec<String> = Vec::new();
    let mut i: usize = 0;
    proof {
        assert(strs_view(out@) =~= Seq::<Seq<char>>::empty());
    }
    while i < n
        invariant
            i <= n == body@.len(),
            bv == ast_views(body@),
            deps_of(bv) == deps_from(bv, i as int, strs_view(out@)),
        decreases n - i,
    {
        proof {
            assert(bv[i as int] == ast_view(body@[i as int]));
        }
        match &body[i] {
            ASTNode::Ident(s) => {
                if !contains_string(&out, s) {
                    let c = s.clone();
                    proof {
                        assert(strs_view(out@.push(c)) =~= strs_view(out@).push(s@));
                    }
                    out.push(c);
                }
            },
            _ => {},
        }
        i = i + 1;
    }
    out
}

// ---------------------------------------------------------------------------
// The map itself
// ---------------------------------------------------------------------------

/// The dictionary from identifier to entry, built once per compilation
/// unit and immutable thereafter.
#[derive(Debug, PartialEq)]
pub struct NameMap {
    entries: Vec<(String, NameMapNode)>,
}

/// The dictionary an entry list denotes, later entries overriding.
pub open spec fn entries_map(s: Seq<(String, NameMapNode)>) -> Map<Seq<char>, NameMapNodeV>
    decreases s.len(),
{
    if s.len() == 0 {
        Map::empty()
    } else {
        entries_map(s.drop_last()).insert(s.last().0@, s.last().1@)
    }
}

impl View for NameMap {
    type V = Map<Seq<char>, NameMapNodeV>;

    closed spec fn view(&self) -> Map<Seq<char>, NameMapNodeV> {
        entries_map(self.entries@)
    }
}

/// The keys a prefix of the entry list holds.
proof fn lemma_entries_map_dom(s: Seq<(String, NameMapNode)>)
    ensures
        forall|k: Seq<char>|
            entries_map(s).dom().contains(k) <==> (exists|i: int|
                0 <= i < s.len() && (#[trigger] s[i]).0@ == k),
    decreases s.len(),
{
    if s.len() > 0 {
        let pre = s.drop_last();
        lemma_entries_map_dom(pre);
        assert forall|k: Seq<char>|
            entries_map(s).dom().contains(k) <==> (exists|i: int|
                0 <= i < s.len() && (#[trigger] s[i]).0@ == k) by {
            if entries_map(s).dom().contains(k) {
                if k == s.last().0@ {
                    assert(s[s.len() - 1].0@ == k);
                } else {
                    assert(entries_map(pre).dom().contains(k));
                    let i = choose|i: int| 0 <= i < pre.len() && (#[trigger] pre[i]).0@ == k;
                    assert(s[i] == pre[i]);
                    assert(s[i].0@ == k);
                }
            }
            if exists|i: int| 0 <= i < s.len() && (#[trigger] s[i]).0@ == k {
                let i = choose|i: int| 0 <= i < s.len() && (#[trigger] s[i]).0@ == k;
                if i == s.len() - 1 {
                    assert(entries_map(s).dom().contains(k));
                } else {
                    assert(pre[i] == s[i]);
                    assert(pre[i].0@ == k);
                    assert(entries_map(pre).dom().contains(k));
                }
            }
        }
    }
}

impl NameMap {
    /// Well-formed: no identifier occurs twice among the entries.
    pub closed spec fn wf(&self) -> bool {
        forall|i: int, j: int|
            0 <= i < j < self.entries@.len() ==> (#[trigger] self.entries@[i]).0@ != (
            #[trigger] self.entries@[j]).0@
    }

    /// The empty map.
    pub fn new() -> (r: NameMap)
        ensures
            r@ == Map::<Seq<char>, NameMapNodeV>::empty(),
            r.wf(),
    {
        NameMap { entries: Vec::new() }
    }

    /// How many entries the map holds.
    pub fn entry_count(&self) -> (r: usize)
        ensures
            self.wf() ==> r == self@.dom().len(),
    {
        proof {
            if self.wf() {
                lemma_entries_len(self.entries@);
            }
        }
        self.entries.len()
    }

    /// Whether `name` is declared.
    pub fn contains_key(&self, name: &String) -> (r: bool)
        ensures
            r == self@.dom().contains(name@),
    {
        let n = self.entries.len();
        let mut j: usize = 0;
        proof {
            lemma_entries_map_dom(self.entries@);
        }
        while j < n
            invariant
                j <= n == self.entries@.len(),
                forall|k: int| 0 <= k < j ==> (#[trigger] self.entries@[k]).0@ != name@,
                forall|k: Seq<char>|
                    self@.dom().contains(k) <==> (exists|i: int|
                        0 <= i < self.entries@.len() && (#[trigger] self.entries@[i]).0@ == k),
            decreases n - j,
        {
            if self.entries[j].0.eq(name) {
                proof {
                    assert(self.entries@[j as int].0@ == name@);
                }
                return true;
            }
            j = j + 1;
        }
        proof {
            if self@.dom().contains(name@) {
                let i = choose|i: int|
                    0 <= i < self.entries@.len() && (#[trigger] self.entries@[i]).0@ == name@;
                assert(false);
            }
        }
        false
    }

    /// The entry declared under `name`, if any.
    pub fn get(&self, name: &String) -> (r: Option<&NameMapNode>)
        requires
            self.wf(),
        ensures
            (match r {
                Some(nd) => self@.dom().contains(name@) && nd@ == self@[name@],
                None => !self@.dom().contains(name@),
            }),
    {
        let n = self.entries.len();
        let mut j: usize = 0;
        proof {
            lemma_entries_map_dom(self.entries@);
        }
        while j < n
            invariant
                self.wf(),
                j <= n == self.entries@.len(),
                forall|k: int| 0 <= k < j ==> (#[trigger] self.entries@[k]).0@ != name@,
                forall|k: Seq<char>|
                    self@.dom().contains(k) <==> (exists|i: int|
                        0 <= i < self.entries@.len() && (#[trigger] self.entries@[i]).0@ == k),
            decreases n - j,
        {
            if self.entries[j].0.eq(name) {
                proof {
                    assert(self.entries@[j as int].0@ == name@);
                    lemma_entries_map_get(self.entries@, j as int);
                }
                return Some(&self.entries[j].1);
            }
            j = j + 1;
        }
        proof {
            if self@.dom().contains(name@) {
                let i = choose|i: int|
                    0 <= i < self.entries@.len() && (#[trigger] self.entries@[i]).0@ == name@;
                assert(false);
            }
        }
        None
    }

    /// Adds a fresh declaration.
    fn insert(&mut self, name: String, node: NameMapNode)
        requires
            old(self).wf(),
            !old(self)@.dom().contains(name@),
        ensures
            final(self)@ == old(self)@.insert(name@, node@),
            final(self).wf(),
    {
        proof {
            lemma_entries_map_dom(self.entries@);
        }
        let ghost pre = self.entries@;
        self.entries.push((name, node));
        proof {
            assert(self.entries@.drop_last() =~= pre);
            assert forall|i: int, j: int| 0 <= i < j < self.entries@.len() implies (
            #[trigger] self.entries@[i]).0@ != (#[trigger] self.entries@[j]).0@ by {
                if j < self.entries@.len() - 1 {
                    assert(pre[i] == self.entries@[i]);
                    assert(pre[j] == self.entries@[j]);
                } else {
                    assert(pre[i] == self.entries@[i]);
                }
            }
        }
    }
}

/// With unique keys, each entry is found at its own position.
proof fn lemma_entries_map_get(s: Seq<(String, NameMapNode)>, i: int)
    requires
        0 <= i < s.len(),
        forall|a: int, b: int|
            0 <= a < b < s.len() ==> (#[trigger] s[a]).0@ != (#[trigger] s[b]).0@,
    ensures
        entries_map(s).dom().contains(s[i].0@),
        entries_map(s)[s[i].0@] == s[i].1@,
    decreases s.len(),
{
    if i == s.len() - 1 {
    } else {
        assert(s.drop_last()[i] == s[i]);
        lemma_entries_map_get(s.drop_last(), i);
        assert(s[i].0@ != s.last().0@);
    }
}

/// With unique keys, the dictionary has exactly one key per entry.
proof fn lemma_entries_len(s: Seq<(String, NameMapNode)>)
    requires
        forall|a: int, b: int|
            0 <= a < b < s.len() ==> (#[trigger] s[a]).0@ != (#[trigger] s[b]).0@,
    ensures
        entries_map(s).dom().finite(),
        entries_map(s).dom().len() == s.len(),
    decreases s.len(),
{
    if s.len() > 0 {
        let pre = s.drop_last();
        assert(forall|a: int, b: int|
            0 <= a < b < pre.len() ==> (#[trigger] pre[a]).0@ != (#[trigger] pre[b]).0@);
        lemma_entries_len(pre);
        lemma_entries_map_dom(pre);
        if entries_map(pre).dom().contains(s.last().0@) {
            let i = choose|i: int| 0 <= i < pre.len() && (#[trigger] pre[i]).0@ == s.last().0@;
            assert(s[i].0@ == s.last().0@);
            assert(false);
        }
        assert(entries_map(s).dom() =~= entries_map(pre).dom().insert(s.last().0@));
        vstd::set::axiom_set_insert_len(entries_map(pre).dom(), s.last().0@);
    } else {
        assert(entries_map(s).dom() =~= Set::<Seq<char>>::empty());
    }
}

// ---------------------------------------------------------------------------
// Building the map
// ---------------------------------------------------------------------------

/// The entry a word declaration's value makes, if its shape is allowed.
pub open spec fn entry_of(v: ASTV) -> Option<NameMapNodeV> {
    match v {
        ASTV::Curly(ch) => Some(NameMapNodeV::Word { implementation: ch, depends_on: deps_of(ch) }),
        ASTV::Ident(s) => Some(NameMapNodeV::AliasedWord(s)),
        ASTV::NumericLiteral(l) => Some(NameMapNodeV::NumericConst(l)),
        ASTV::StringLiteral(s) => Some(NameMapNodeV::StringConst(s)),
        _ => None,
    }
}

/// Builds the dictionary from `ns[i..]` on top of `m`: word declarations
/// insert entries, a repeated name or a bad value shape is fatal, typing
/// annotations and comments pass by.
pub open spec fn extract_from(
    ns: Seq<TopLevelV>,
    i: int,
    m: Map<Seq<char>, NameMapNodeV>,
) -> Result<Map<Seq<char>, NameMapNodeV>, NameMapErrorV>
    decreases ns.len() - i,
{
    if i < 0 || i >= ns.len() {
        Ok(m)
    } else {
        match ns[i] {
            TopLevelV::WordDeclare(name, v) => match entry_of(v) {
                None => Err(NameMapErrorV::BadWordValue { at: i }),
                Some(e) => {
                    if m.dom().contains(name) {
                        Err(NameMapErrorV::DuplicateDeclaration { name })
                    } else {
                        extract_from(ns, i + 1, m.insert(name, e))
                    }
                },
            },
            _ => extract_from(ns, i + 1, m),
        }
    }
}

/// What building the dictionary from a whole unit yields.
pub open spec fn extract_spec(ns: Seq<TopLevelV>) -> Result<
    Map<Seq<char>, NameMapNodeV>,
    NameMapErrorV,
> {
    extract_from(ns, 0, Map::empty())
}

// ---------------------------------------------------------------------------
// The dependency extraction law
// ---------------------------------------------------------------------------

/// No two elements of the list are equal.
pub open spec fn distinct_seqs(ss: Seq<Seq<char>>) -> bool {
    forall|i: int, j: int| 0 <= i < j < ss.len() ==> ss[i] != ss[j]
}

proof fn lemma_push_contains(s: Seq<Seq<char>>, v: Seq<char>)
    ensures
        forall|x: Seq<char>| #[trigger] s.push(v).contains(x) <==> s.contains(x) || x == v,
{
    assert forall|x: Seq<char>| #[trigger] s.push(v).contains(x) <==> s.contains(x) || x == v by {
        if s.push(v).contains(x) {
            let k = choose|k: int| 0 <= k < s.push(v).len() && s.push(v)[k] == x;
            if k < s.len() {
                assert(s[k] == x);
            }
        }
        if s.contains(x) {
            let k = choose|k: int| 0 <= k < s.len() && s[k] == x;
            assert(s.push(v)[k] == x);
        }
        if x == v {
            assert(s.push(v)[s.len() as int] == x);
        }
    }
}

proof fn lemma_deps_from_props(body: Seq<ASTV>, i: int, acc: Seq<Seq<char>>)
    requires
        0 <= i <= body.len(),
        distinct_seqs(acc),
    ensures
        distinct_seqs(deps_from(body, i, acc)),
        forall|s: Seq<char>|
            #[trigger] deps_from(body, i, acc).contains(s) <==> acc.contains(s) || (exists|j: int|
                i <= j < body.len() && body[j] == ASTV::Ident(s)),
    decreases body.len() - i,
{
    if i < body.len() {
        if body[i] is Ident {
            let v = body[i]->Ident_0;
            if acc.contains(v) {
                lemma_deps_from_props(body, i + 1, acc);
                assert forall|s: Seq<char>|
                    #[trigger] deps_from(body, i, acc).contains(s) <==> acc.contains(s) || (
                    exists|j: int| i <= j < body.len() && body[j] == ASTV::Ident(s)) by {
                    if exists|j: int| i <= j < body.len() && body[j] == ASTV::Ident(s) {
                        let j = choose|j: int| i <= j < body.len() && body[j] == ASTV::Ident(s);
                        if j == i {
                            assert(s == v);
                            assert(acc.contains(s));
                        }
                    }
                    if acc.contains(s) || (exists|j: int|
                        i + 1 <= j < body.len() && body[j] == ASTV::Ident(s)) {
                        assert(deps_from(body, i, acc).contains(s));
                    }
                }
            } else {
                lemma_push_contains(acc, v);
                assert(distinct_seqs(acc.push(v))) by {
                    assert forall|a: int, b: int|
                        0 <= a < b < acc.push(v).len() implies acc.push(v)[a] != acc.push(
                        v,
                    )[b] by {
                        if b < acc.len() {
                            assert(acc.push(v)[a] == acc[a] && acc.push(v)[b] == acc[b]);
                        } else {
                            assert(acc.push(v)[a] == acc[a]);
                            if acc[a] == v {
                                assert(acc.contains(v));
                            }
                        }
                    }
                }
                lemma_deps_from_props(body, i + 1, acc.push(v));
                assert forall|s: Seq<char>|
                    #[trigger] deps_from(body, i, acc).contains(s) <==> acc.contains(s) || (
                    exists|j: int| i <= j < body.len() && body[j] == ASTV::Ident(s)) by {
                    if deps_from(body, i, acc).contains(s) {
                        if !acc.contains(s) {
                            if acc.push(v).contains(s) {
                                assert(s == v);
                                assert(body[i] == ASTV::Ident(s));
                            }
                        }
                    }
                    if acc.contains(s) {
                        assert(acc.push(v).contains(s));
                        assert(deps_from(body, i, acc).contains(s));
                    }
                    if exists|j: int| i <= j < body.len() && body[j] == ASTV::Ident(s) {
                        let j = choose|j: int| i <= j < body.len() && body[j] == ASTV::Ident(s);
                        if j == i {
                            assert(s == v);
                            assert(acc.push(v).contains(s));
                        }
                        assert(deps_from(body, i, acc).contains(s));
                    }
                }
            }
        } else {
            lemma_deps_from_props(body, i + 1, acc);
            assert forall|s: Seq<char>|
                #[trigger] deps_from(body, i, acc).contains(s) <==> acc.contains(s) || (exists|
                j: int,
            | i <= j < body.len() && body[j] == ASTV::Ident(s)) by {
                if exists|j: int| i <= j < body.len() && body[j] == ASTV::Ident(s) {
                    let j = choose|j: int| i <= j < body.len() && body[j] == ASTV::Ident(s);
                    assert(j != i);
                    assert(deps_from(body, i, acc).contains(s));
                }
            }
        }
    }
}

/// The dependency extraction law: a word body's `depends_on` holds an
/// identifier exactly when some direct child of the body is that bare
/// identifier, each at most once — duplicates collapsed, order aside.
pub proof fn lemma_depends_on_set(body: Seq<ASTV>)
    ensures
        forall|s: Seq<char>|
            #[trigger] deps_of(body).contains(s) <==> (exists|j: int|
                0 <= j < body.len() && body[j] == ASTV::Ident(s)),
        distinct_seqs(deps_of(body)),
{
    lemma_deps_from_props(body, 0, Seq::empty());
    assert forall|s: Seq<char>| !Seq::<Seq<char>>::empty().contains(s) by {
        if Seq::<Seq<char>>::empty().contains(s) {
            let k = choose|k: int|
                0 <= k < Seq::<Seq<char>>::empty().len() && Seq::<Seq<char>>::empty()[k] == s;
        }
    }
}

// ---------------------------------------------------------------------------
// The duplicate rejection law
// ---------------------------------------------------------------------------

/// Every word declaration in `ns` has a value of an allowed entry shape.
pub open spec fn word_values_ok(ns: Seq<TopLevelV>) -> bool {
    forall|k: int|
        0 <= k < ns.len() && (#[trigger] ns[k]) is WordDeclare ==> entry_of(
            ns[k]->WordDeclare_1,
        ) is Some
}

/// Building from `k` on fails once some later word's name is already
/// declared in `m`.
proof fn lemma_extract_dom_hit(
    ns: Seq<TopLevelV>,
    k: int,
    m: Map<Seq<char>, NameMapNodeV>,
    i: int,
)
    requires
        0 <= k <= i < ns.len(),
        word_values_ok(ns),
        ns[i] is WordDeclare,
        m.dom().contains(ns[i]->WordDeclare_0),
    ensures
        extract_from(ns, k, m) is Err,
        extract_from(ns, k, m)->Err_0 is DuplicateDeclaration,
    decreases ns.len() - k,
{
    if ns[k] is WordDeclare {
        let name = ns[k]->WordDeclare_0;
        let v = ns[k]->WordDeclare_1;
        assert(entry_of(v) is Some);
        if !m.dom().contains(name) {
            if let Some(e) = entry_of(v) {
                assert(k < i);
                lemma_extract_dom_hit(ns, k + 1, m.insert(name, e), i);
            }
        }
    } else {
        assert(k < i);
        lemma_extract_dom_hit(ns, k + 1, m, i);
    }
}

/// Building from `k` on fails once two later words share a name.
proof fn lemma_extract_pair(
    ns: Seq<TopLevelV>,
    k: int,
    m: Map<Seq<char>, NameMapNodeV>,
    i: int,
    j: int,
)
    requires
        0 <= k <= i < j < ns.len(),
        word_values_ok(ns),
        ns[i] is WordDeclare,
        ns[j] is WordDeclare,
        ns[i]->WordDeclare_0 == ns[j]->WordDeclare_0,
    ensures
        extract_from(ns, k, m) is Err,
        extract_from(ns, k, m)->Err_0 is DuplicateDeclaration,
    decreases ns.len() - k,
{
    if ns[k] is WordDeclare {
        let name = ns[k]->WordDeclare_0;
        let v = ns[k]->WordDeclare_1;
        assert(entry_of(v) is Some);
        if !m.dom().contains(name) {
            if let Some(e) = entry_of(v) {
                if k == i {
                    lemma_extract_dom_hit(ns, k + 1, m.insert(name, e), j);
                } else {
                    lemma_extract_pair(ns, k + 1, m.insert(name, e), i, j);
                }
            }
        }
    } else {
        assert(k < i);
        lemma_extract_pair(ns, k + 1, m, i, j);
    }
}

/// The duplicate rejection law: when two word declarations in one unit
/// carry the same identifier and every word value has an allowed shape,
/// the name-map build fails with a `DuplicateDeclaration`, whether or
/// not the two bodies are identical.
pub proof fn lemma_duplicate_rejected(ns: Seq<TopLevelV>, i: int, j: int)
    requires
        0 <= i < j < ns.len(),
        word_values_ok(ns),
        ns[i] is WordDeclare,
        ns[j] is WordDeclare,
        ns[i]->WordDeclare_0 == ns[j]->WordDeclare_0,
    ensures
        extract_spec(ns) is Err,
        extract_spec(ns)->Err_0 is DuplicateDeclaration,
{
    lemma_extract_pair(ns, 0, Map::empty(), i, j);
}

/// Builds the name map of a compilation unit, or reports the first bad
/// word value or duplicate declaration.
pub fn extract_name_map(base: Vec<TopLevelNode>) -> (r: Result<NameMap, NameMapError>)
    ensures
        r matches Ok(m) ==> extract_spec(top_views(base@)) == Ok::<_, NameMapErrorV>(m@) && m.wf(),
        r matches Err(e) ==> extract_spec(top_views(base@)) == Err::<Map<Seq<char>, NameMapNodeV>, _>(
            e@,
        ),
{
    let ghost ns = top_views(base@);
    let n = base.len();
    let mut map = NameMap::new();
    let mut i: usize = 0;
    while i < n
        invariant
            i <= n == base@.len(),
            ns == top_views(base@),
            map.wf(),
            extract_spec(ns) == extract_from(ns, i as int, map@),
        decreases n - i,
    {
        proof {
            assert(ns[i as int] == top_view(base@[i as int]));
        }
        match &base[i] {
            TopLevelNode::WordDeclare(name, value) => {
                let node: NameMapNode = match value {
                    ASTNode::Curly(ch) => {
                        let deps = extract_deps(ch);
                        let body = clone_ast_vec(ch);
                        let nd = NameMapNode::Word { implementation: body, depends_on: deps };
                        proof {
                            assert(ast_view(base@[i as int]->WordDeclare_1) matches ASTV::Curly(c)
                                && c == ast_views(ch@));
                        }
                        nd
                    },
                    ASTNode::Ident(a) => NameMapNode::AliasedWord(a.clone()),
                    ASTNode::NumericLiteral(l) => NameMapNode::NumericConst(l.duplicate()),
                    ASTNode::StringLiteral(s) => NameMapNode::StringConst(s.clone()),
                    _ => {
                        proof {
                            assert(entry_of(ast_view(base@[i as int]->WordDeclare_1)) is None);
                        }
                        return Err(NameMapError::BadWordValue { at: i });
                    },
                };
                proof {
                    assert(entry_of(ast_view(base@[i as int]->WordDeclare_1)) == Some(node@));
                }
                if map.contains_key(name) {
                    return Err(NameMapError::DuplicateDeclaration { name: name.clone() });
                }
                map.insert(name.clone(), node);
            },
            _ => {},
        }
        i = i + 1;
    }
    Ok(map)
}

} // verus!
