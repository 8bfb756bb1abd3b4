//! Import resolution and module merging. Where modules come from is left to
//! a [`ModuleResolver`]: the command line reads files, tests use a map. The
//! loader does the rest: it follows imports depth first, reads each module
//! once, refuses cycles, and puts imported items before their importer's.

use vstd::prelude::*;

use crate::diagnostics::{concat_strs, CaelumError, Result};
use crate::syntax::ast::{clone_strings, ImportDecl, Item, ModuleName, SourceFile};
use crate::syntax::parser::{chars_of, parse_source_file};

verus! {

/// The identity of a module: a canonical path for files, a key for a map.
pub type ModuleId = String;

/// Where modules come from: how an `import` written in a module names
/// another module, and the source text of a module.
pub trait ModuleResolver {
    /// The module that `import`, written in `importer`, refers to.
    fn resolve(&self, importer: &ModuleId, import: &str) -> Result<ModuleId>;

    /// The source text of a module.
    fn read(&self, id: &ModuleId) -> Result<String>;
}

/// Where the file system looks for imported modules besides the importer's
/// directory.
#[derive(Debug, Clone, Default)]
pub struct LoadOptions {
    pub include_paths: Vec<String>,
}

#[derive(Debug, Clone)]
pub struct LoadedSpec {
    pub root: ModuleId,
    /// Every module read, each once, an importer after what it imports.
    pub files: Vec<ModuleId>,
    /// All items of all modules, imported items before their importer's.
    pub source: SourceFile,
}

/// The names of a list of modules.
pub open spec fn views(s: Seq<ModuleId>) -> Seq<Seq<char>> {
    s.map_values(|m: ModuleId| m@)
}

/// No name occurs twice.
pub open spec fn distinct(s: Seq<Seq<char>>) -> bool {
    forall|i: int, j: int| 0 <= i < j < s.len() ==> s[i] != s[j]
}

/// The position of the first occurrence of `x` in `s`.
pub open spec fn first_pos(s: Seq<Seq<char>>, x: Seq<char>) -> int
    decreases s.len(),
{
    if s.len() == 0 || s[0] == x {
        0
    } else {
        first_pos(s.drop_first(), x) + 1
    }
}

/// The names of `s` joined by ` -> `.
pub open spec fn chain_text(s: Seq<Seq<char>>) -> Seq<char>
    decreases s.len(),
{
    if s.len() == 0 {
        Seq::empty()
    } else if s.len() == 1 {
        s[0]
    } else {
        chain_text(s.drop_last()) + " -> "@ + s.last()
    }
}

/// The message for importing `id` while `stack` is being loaded: the chain
/// from the first occurrence of `id` on the stack back to `id`.
pub open spec fn cycle_message(stack: Seq<Seq<char>>, id: Seq<char>) -> Seq<char> {
    "import cycle detected: "@ + chain_text(stack.skip(first_pos(stack, id)).push(id))
}

struct Loader {
    /// Every module whose loading has started.
    loaded: Vec<ModuleId>,
    /// Every module loaded completely, in the order loading finished.
    files: Vec<ModuleId>,
    /// The modules being loaded, outermost first.
    stack: Vec<ModuleId>,
    /// The items each module loaded completely declares itself.
    own: Ghost<Map<Seq<char>, Seq<Item>>>,
}

/// The items the modules `fs` declare themselves, one module after another.
spec fn concat_own(own: Map<Seq<char>, Seq<Item>>, fs: Seq<Seq<char>>) -> Seq<Item>
    decreases fs.len(),
{
    if fs.len() == 0 {
        Seq::empty()
    } else {
        concat_own(own, fs.drop_last()) + own[fs.last()]
    }
}

/// `b` keeps every entry of `a`.
spec fn own_keeps(a: Map<Seq<char>, Seq<Item>>, b: Map<Seq<char>, Seq<Item>>) -> bool {
    forall|m: Seq<char>| #[trigger] a.dom().contains(m) ==> b.dom().contains(m) && b[m] == a[m]
}

/// The items an import brought in join those already gathered.
proof fn lemma_import_step(o0: Map<Seq<char>, Seq<Item>>, o1: Map<Seq<char>, Seq<Item>>, o2: Map<Seq<char>, Seq<Item>>,
    f1: Seq<ModuleId>, f2: Seq<ModuleId>, e: int, before: Seq<Item>, got: Seq<Item>)
    requires
        0 <= e <= f1.len() <= f2.len(),
        f2.take(f1.len() as int) == f1,
        forall|m: Seq<char>| #![trigger o1.dom().contains(m)] #![trigger views(f1).contains(m)]
            o1.dom().contains(m) <==> views(f1).contains(m),
        own_keeps(o0, o1),
        own_keeps(o1, o2),
        before == concat_own(o1, views(f1).skip(e)),
        got == concat_own(o2, views(f2).skip(f1.len() as int)),
    ensures
        before + got == concat_own(o2, views(f2).skip(e)),
        own_keeps(o0, o2),
{
    let m = f1.len() as int;
    let vf = views(f2);
    let vm = views(f1);
    assert(vf.subrange(e, m) =~= vm.skip(e)) by {
        assert forall|k: int| 0 <= k < m - e implies vf.subrange(e, m)[k] == vm.skip(e)[k] by {
            assert(f2[e + k] == f2.take(m)[e + k]);
        }
    }
    assert(vf.skip(e) =~= vf.subrange(e, m) + vf.skip(m));
    assert forall|k: int| 0 <= k < vm.skip(e).len() implies o1.dom().contains(#[trigger] vm.skip(e)[k]) by {
        assert(vm.contains(vm[e + k]));
    }
    lemma_concat_own_agree(o1, o2, vm.skip(e));
    lemma_concat_own_append(o2, vm.skip(e), vf.skip(m));
    lemma_own_keeps_trans(o0, o1, o2);
}

/// Recording a module's own items after those of its imports.
proof fn lemma_finish_own(o0: Map<Seq<char>, Seq<Item>>, o1: Map<Seq<char>, Seq<Item>>, o2: Map<Seq<char>, Seq<Item>>,
    vb: Seq<Seq<char>>, vn: Seq<Seq<char>>, idv: Seq<char>, e: int, imported: Seq<Item>, own_items: Seq<Item>)
    requires
        vn == vb.push(idv),
        !vb.contains(idv),
        0 <= e <= vb.len(),
        o2 == o1.insert(idv, own_items),
        forall|m: Seq<char>| #![trigger o1.dom().contains(m)] #![trigger vb.contains(m)] o1.dom().contains(m) <==> vb.contains(m),
        own_keeps(o0, o1),
        imported == concat_own(o1, vb.skip(e)),
    ensures
        concat_own(o2, vn.skip(e)) == imported + own_items,
        forall|m: Seq<char>| #![trigger o2.dom().contains(m)] #![trigger vn.contains(m)] o2.dom().contains(m) <==> vn.contains(m),
        own_keeps(o0, o2),
{
    assert(vn.skip(e) =~= vb.skip(e).push(idv));
    assert forall|k: int| 0 <= k < vb.skip(e).len() implies o1.dom().contains(#[trigger] vb.skip(e)[k]) by {
        assert(vb.contains(vb[e + k]));
    }
    assert(own_keeps(o1, o2));
    lemma_concat_own_agree(o1, o2, vb.skip(e));
    assert(vb.skip(e).push(idv).drop_last() =~= vb.skip(e));
    lemma_own_keeps_trans(o0, o1, o2);
    assert forall|m: Seq<char>| #![trigger o2.dom().contains(m)] #![trigger vn.contains(m)] o2.dom().contains(m) <==> vn.contains(m) by {
        if m == idv {
            assert(vn[vn.len() - 1] == idv);
        } else if vn.contains(m) {
            let k = choose|k: int| 0 <= k < vn.len() && vn[k] == m;
            assert(vb[k] == m);
        } else if vb.contains(m) {
            let k = choose|k: int| 0 <= k < vb.len() && vb[k] == m;
            assert(vn[k] == m);
        }
    }
}

proof fn lemma_own_keeps_trans(a: Map<Seq<char>, Seq<Item>>, b: Map<Seq<char>, Seq<Item>>, c: Map<Seq<char>, Seq<Item>>)
    requires
        own_keeps(a, b),
        own_keeps(b, c),
    ensures
        own_keeps(a, c),
{
    assert forall|m: Seq<char>| a.dom().contains(m) implies c.dom().contains(m) && c[m] == a[m] by {
        assert(b.dom().contains(m) && b[m] == a[m]);
    }
}

proof fn lemma_concat_own_append(own: Map<Seq<char>, Seq<Item>>, a: Seq<Seq<char>>, b: Seq<Seq<char>>)
    ensures
        concat_own(own, a + b) == concat_own(own, a) + concat_own(own, b),
    decreases b.len(),
{
    if b.len() == 0 {
        assert(a + b =~= a);
        assert(concat_own(own, a) + concat_own(own, b) =~= concat_own(own, a));
    } else {
        assert((a + b).drop_last() =~= a + b.drop_last());
        lemma_concat_own_append(own, a, b.drop_last());
        assert((a + b).last() == b.last());
        assert(concat_own(own, a + b) =~= concat_own(own, a) + concat_own(own, b));
    }
}

proof fn lemma_concat_own_agree(o1: Map<Seq<char>, Seq<Item>>, o2: Map<Seq<char>, Seq<Item>>, fs: Seq<Seq<char>>)
    requires
        forall|i: int| 0 <= i < fs.len() ==> o1.dom().contains(#[trigger] fs[i]),
        own_keeps(o1, o2),
    ensures
        concat_own(o1, fs) == concat_own(o2, fs),
    decreases fs.len(),
{
    if fs.len() > 0 {
        assert forall|i: int| 0 <= i < fs.drop_last().len() implies o1.dom().contains(#[trigger] fs.drop_last()[i]) by {
            assert(fs.drop_last()[i] == fs[i]);
        }
        lemma_concat_own_agree(o1, o2, fs.drop_last());
        assert(o1.dom().contains(fs[fs.len() - 1]));
    }
}

proof fn lemma_views_push(s: Seq<ModuleId>, x: ModuleId)
    ensures
        views(s.push(x)) == views(s).push(x@),
{
    assert(views(s.push(x)) =~= views(s).push(x@));
}

impl Loader {
    /// Exactly the modules loaded completely have their own items recorded.
    spec fn own_ok(&self) -> bool {
        forall|m: Seq<char>| #![trigger self.own@.dom().contains(m)] #![trigger views(self.files@).contains(m)]
            self.own@.dom().contains(m) <==> views(self.files@).contains(m)
    }

    spec fn wf(&self) -> bool {
        &&& distinct(views(self.files@))
        &&& distinct(views(self.stack@))
        &&& forall|i: int| 0 <= i < self.files@.len() ==> views(self.loaded@).contains(#[trigger] views(self.files@)[i])
        &&& forall|i: int| 0 <= i < self.stack@.len() ==> views(self.loaded@).contains(#[trigger] views(self.stack@)[i])
        &&& forall|i: int| 0 <= i < self.stack@.len() ==> !views(self.files@).contains(#[trigger] views(self.stack@)[i])
        &&& forall|i: int| 0 <= i < self.loaded@.len()
            ==> views(self.files@).contains(#[trigger] views(self.loaded@)[i]) || views(self.stack@).contains(views(self.loaded@)[i])
    }

    /// Loads `id` and, first, what it imports, `depth` levels deep at most.
    #[verifier::rlimit(100)]
    #[verifier::spinoff_prover]
    fn load_file<R: ModuleResolver>(&mut self, id: &ModuleId, resolver: &R, depth: usize) -> (r: Result<SourceFile>)
        requires
            old(self).wf(),
            old(self).own_ok(),
        ensures
            r is Ok ==> final(self).own_ok() && own_keeps(old(self).own@, final(self).own@),
            r matches Ok(f) ==> f.items@ == concat_own(final(self).own@, views(final(self).files@).skip(old(self).files@.len() as int)),
            views(old(self).stack@).contains(id@)
                ==> (r matches Err(CaelumError::Import { message }) && message@ == cycle_message(views(old(self).stack@), id@)),
            r is Ok ==> {
                &&& final(self).wf()
                &&& final(self).stack@ == old(self).stack@
                &&& final(self).files@.len() >= old(self).files@.len()
                &&& final(self).files@.take(old(self).files@.len() as int) == old(self).files@
                &&& views(final(self).files@).contains(id@)
            },
            r is Ok && !views(old(self).loaded@).contains(id@) ==> final(self).files@.last()@ == id@,
            views(old(self).loaded@).contains(id@) ==> (r matches Ok(f) ==> f.items@.len() == 0 && final(self).files@ == old(self).files@),
        decreases depth,
    {
        let ghost st = views(self.stack@);
        let mut p: usize = 0;
        while p < self.stack.len()
            invariant
                p <= self.stack@.len(),
                st == views(self.stack@),
                forall|q: int| 0 <= q < p ==> st[q] != id@,
                *self == *old(self),
            decreases self.stack@.len() - p,
        {
            if self.stack[p] == *id {
                proof {
                    lemma_first_pos(st, id@, p as int);
                }
                let mut message = concat_strs(&["import cycle detected: "]);
                proof {
                    reveal_with_fuel(crate::diagnostics::concat_views, 2);
                }
                let mut q: usize = p;
                while q < self.stack.len()
                    invariant
                        p <= q <= self.stack@.len(),
                        p < self.stack@.len(),
                        st == views(self.stack@),
                        message@ == "import cycle detected: "@ + chain_text(st.subrange(p as int, q as int)),
                    decreases self.stack@.len() - q,
                {
                    if q > p {
                        message.append(" -> ");
                    }
                    message.append(self.stack[q].as_str());
                    proof {
                        let s = st.subrange(p as int, q as int + 1);
                        assert(s.drop_last() == st.subrange(p as int, q as int));
                        assert(s.last() == st[q as int]);
                        if q == p {
                            assert(s.len() == 1);
                            assert(s[0] == st[q as int]);
                        }
                        assert(message@ =~= "import cycle detected: "@ + chain_text(s));
                    }
                    q = q + 1;
                }
                message.append(" -> ");
                message.append(id.as_str());
                proof {
                    let s = st.subrange(p as int, q as int).push(id@);
                    assert(s.drop_last() == st.subrange(p as int, q as int));
                    assert(message@ =~= "import cycle detected: "@ + chain_text(s));
                    assert(st.skip(p as int) == st.subrange(p as int, q as int));
                }
                return Err(CaelumError::Import { message });
            }
            p = p + 1;
        }
        assert(!st.contains(id@));
        let ghost ld = views(self.loaded@);
        let mut k: usize = 0;
        while k < self.loaded.len()
            invariant
                k <= self.loaded@.len(),
                ld == views(self.loaded@),
                forall|q: int| 0 <= q < k ==> ld[q] != id@,
                *self == *old(self),
                old(self).wf(),
                old(self).own_ok(),
                !views(old(self).stack@).contains(id@),
            decreases self.loaded@.len() - k,
        {
            if self.loaded[k] == *id {
                proof {
                    assert(ld[k as int] == id@);
                    assert(views(self.files@).contains(ld[k as int]) || views(self.stack@).contains(ld[k as int]));
                    assert(views(self.files@).contains(id@));
                }
                proof {
                    assert(views(self.files@).skip(self.files@.len() as int) =~= Seq::<Seq<char>>::empty());
                }
                let empty: Vec<Item> = Vec::new();
                assert(own_keeps(self.own@, self.own@));
                assert(*self == *old(self));
                assert(self.own_ok());
                assert(empty@ =~= concat_own(self.own@, views(self.files@).skip(old(self).files@.len() as int)));
                return Ok(SourceFile { module: None, imports: Vec::new(), items: empty });
            }
            k = k + 1;
        }
        assert(!ld.contains(id@));
        if depth == 0 {
            return Err(CaelumError::Import { message: "imports nest too deeply".to_owned() });
        }
        self.loaded.push(id.clone());
        self.stack.push(id.clone());
        proof {
            lemma_views_push(old(self).loaded@, *id);
            lemma_views_push(old(self).stack@, *id);
            let (l0, f0, s0) = (views(old(self).loaded@), views(old(self).files@), views(old(self).stack@));
            let (l, f, s1) = (views(self.loaded@), views(self.files@), views(self.stack@));
            assert(f == f0);
            assert forall|i: int| 0 <= i < l.len() implies f.contains(#[trigger] l[i]) || s1.contains(l[i]) by {
                if i < l0.len() {
                    assert(l[i] == l0[i]);
                    if s0.contains(l[i]) {
                        let j = choose|j: int| 0 <= j < s0.len() && s0[j] == l[i];
                        assert(s1[j] == s0[j]);
                    }
                } else {
                    assert(s1[s1.len() - 1] == id@);
                }
            }
            assert forall|i: int| 0 <= i < s1.len() implies l.contains(#[trigger] s1[i]) by {
                if i < s0.len() {
                    assert(s1[i] == s0[i]);
                    let j = choose|j: int| 0 <= j < l0.len() && l0[j] == s0[i];
                    assert(l[j] == l0[j]);
                } else {
                    assert(l[l.len() - 1] == id@);
                }
            }
            assert forall|i: int| 0 <= i < f.len() implies l.contains(#[trigger] f[i]) by {
                let j = choose|j: int| 0 <= j < l0.len() && l0[j] == f0[i];
                assert(l[j] == l0[j]);
            }
            assert forall|i: int| 0 <= i < s1.len() implies !f.contains(#[trigger] s1[i]) by {
                if i < s0.len() {
                    assert(s1[i] == s0[i]);
                } else {
                    assert(s1[i] == id@);
                    if f.contains(id@) {
                        let j = choose|j: int| 0 <= j < f.len() && f[j] == id@;
                        assert(l0.contains(f0[j]));
                    }
                }
            }
            assert forall|a: int, b: int| 0 <= a < b < s1.len() implies s1[a] != s1[b] by {
                if b == s1.len() - 1 {
                    assert(s1[a] == s0[a]);
                } else {
                    assert(s1[a] == s0[a]);
                    assert(s1[b] == s0[b]);
                }
            }
            assert(self.wf());
        }
        let ghost entered = *self;
        let source = match resolver.read(id) {
            Ok(s) => s,
            Err(e) => {
                return Err(e);
            },
        };
        let parsed = parse_source_file(id.as_str(), source.as_str())?;
        let mut items: Vec<Item> = Vec::new();
        let mut i: usize = 0;
        while i < parsed.imports.len()
            invariant
                self.wf(),
                self.stack@ == entered.stack@,
                self.files@.len() >= entered.files@.len(),
                self.files@.take(entered.files@.len() as int) == entered.files@,
                entered.stack@ == old(self).stack@.push(*id),
                entered.files@ == old(self).files@,
                !views(old(self).stack@).contains(id@),
                !views(old(self).loaded@).contains(id@),
                0 < depth,
                self.own_ok(),
                own_keeps(old(self).own@, self.own@),
                items@ == concat_own(self.own@, views(self.files@).skip(entered.files@.len() as int)),
            decreases parsed.imports@.len() - i,
        {
            let imported_id = resolver.resolve(id, parsed.imports[i].path.as_str())?;
            let ghost mid = *self;
            let ghost items_before = items@;
            let mut imported = self.load_file(&imported_id, resolver, depth - 1)?;
            let ghost got = imported.items@;
            proof {
                assert(self.files@.take(entered.files@.len() as int) =~= mid.files@.take(entered.files@.len() as int));
            }
            items.append(&mut imported.items);
            proof {
                assert(self.files@.take(mid.files@.len() as int) == mid.files@);
                lemma_import_step(old(self).own@, mid.own@, self.own@, mid.files@, self.files@,
                    entered.files@.len() as int, items_before, got);
                assert(items@ =~= items_before + got);
            }
            i = i + 1;
        }
        let module = match &parsed.module {
            Some(m) => Some(ModuleName { parts: clone_strings(&m.parts) }),
            None => None,
        };
        let mut imports: Vec<ImportDecl> = Vec::new();
        let mut j: usize = 0;
        while j < parsed.imports.len()
            decreases parsed.imports@.len() - j,
        {
            imports.push(ImportDecl { path: parsed.imports[j].path.clone() });
            j = j + 1;
        }
        let mut own = parsed.items;
        let ghost own_items = own@;
        let ghost imported_items = items@;
        items.append(&mut own);
        let ghost before = *self;
        self.files.push(id.clone());
        self.stack.pop();
        proof {
            self.own@ = self.own@.insert(id@, own_items);
        }
        proof {
            lemma_views_push(before.files@, *id);
            lemma_finish_own(old(self).own@, before.own@, self.own@, views(before.files@), views(self.files@), id@,
                old(self).files@.len() as int, imported_items, own_items);
            assert(items@ =~= imported_items + own_items);
        }
        proof {
            assert(before.stack@.drop_last() == old(self).stack@);
            assert(self.stack@ == old(self).stack@);
            lemma_views_push(before.files@, *id);
            let (l, fb, sb) = (views(before.loaded@), views(before.files@), views(before.stack@));
            let (f, s1) = (views(self.files@), views(self.stack@));
            assert(s1 =~= sb.drop_last());
            assert(sb[sb.len() - 1] == id@);
            assert(!fb.contains(id@));
            assert(self.files@.take(old(self).files@.len() as int) =~= before.files@.take(old(self).files@.len() as int));
            assert(f[f.len() - 1] == id@);
            assert forall|a: int, b: int| 0 <= a < b < f.len() implies f[a] != f[b] by {
                if b == f.len() - 1 {
                    assert(f[a] == fb[a]);
                } else {
                    assert(f[a] == fb[a]);
                    assert(f[b] == fb[b]);
                }
            }
            assert forall|i: int| 0 <= i < f.len() implies l.contains(#[trigger] f[i]) by {
                if i < fb.len() {
                    assert(f[i] == fb[i]);
                } else {
                    assert(l.contains(sb[sb.len() - 1]));
                }
            }
            assert forall|i: int| 0 <= i < s1.len() implies l.contains(#[trigger] s1[i]) by {
                assert(s1[i] == sb[i]);
            }
            assert forall|i: int| 0 <= i < s1.len() implies !f.contains(#[trigger] s1[i]) by {
                assert(s1[i] == sb[i]);
                assert(sb[i] != sb[sb.len() - 1]);
                if f.contains(s1[i]) {
                    let j = choose|j: int| 0 <= j < f.len() && f[j] == s1[i];
                    if j < fb.len() {
                        assert(fb[j] == f[j]);
                    }
                }
            }
            assert forall|i: int| 0 <= i < l.len() implies f.contains(#[trigger] l[i]) || s1.contains(l[i]) by {
                let x = l[i];
                if fb.contains(x) {
                    let j = choose|j: int| 0 <= j < fb.len() && fb[j] == x;
                    assert(f[j] == fb[j]);
                } else {
                    let j = choose|j: int| 0 <= j < sb.len() && sb[j] == x;
                    if j == sb.len() - 1 {
                        assert(f[f.len() - 1] == x);
                    } else {
                        assert(s1[j] == sb[j]);
                    }
                }
            }
            assert(views(self.loaded@) == l);
            assert(self.wf());
        }
        Ok(SourceFile { module, imports, items })
    }
}

proof fn lemma_first_pos(s: Seq<Seq<char>>, x: Seq<char>, p: int)
    requires
        0 <= p < s.len(),
        s[p] == x,
        forall|q: int| 0 <= q < p ==> s[q] != x,
    ensures
        first_pos(s, x) == p,
    decreases p,
{
    if p > 0 {
        assert forall|q: int| 0 <= q < p - 1 implies s.drop_first()[q] != x by {
            assert(s.drop_first()[q] == s[q + 1]);
        }
        lemma_first_pos(s.drop_first(), x, p - 1);
    }
}

/// Loads `root` and every module it imports, directly or not, merging all
/// items into one file, imported items first. Importing a module that is
/// still being loaded is an error naming the cycle.
pub fn load_spec_with<R: ModuleResolver>(root: &ModuleId, resolver: &R) -> (r: Result<LoadedSpec>)
    ensures
        r matches Ok(l) ==> {
            &&& l.root == *root
            &&& distinct(views(l.files@))
            &&& l.files@.len() > 0
            &&& l.files@.last()@ == root@
        },
{
    let mut loader = Loader { loaded: Vec::new(), files: Vec::new(), stack: Vec::new(), own: Ghost(Map::empty()) };
    proof {
        assert(views(loader.loaded@) =~= Seq::empty());
        assert(views(loader.files@) =~= Seq::empty());
        assert(views(loader.stack@) =~= Seq::empty());
    }
    let source = loader.load_file(root, resolver, usize::MAX)?;
    Ok(LoadedSpec { root: root.clone(), files: loader.files, source })
}

/// The length of `p` without its trailing `/`.
pub open spec fn trimmed_len(p: Seq<char>) -> nat
    decreases p.len(),
{
    if p.len() > 0 && p.last() == '/' {
        trimmed_len(p.drop_last())
    } else {
        p.len()
    }
}

/// Where the path component that ends at `end` starts.
pub open spec fn name_start(p: Seq<char>, end: nat) -> nat
    decreases end,
{
    if end > 0 && p[end - 1] != '/' {
        name_start(p, (end - 1) as nat)
    } else {
        end
    }
}

/// Whether a path names a `.lum` file: its last component, trailing `/`
/// removed, is a non-empty name followed by `.lum`.
pub open spec fn has_lum_extension(path: Seq<char>) -> bool {
    let end = trimmed_len(path);
    let start = name_start(path, end);
    end - start > 4 && path.subrange(end - 4, end as int) == seq!['.', 'l', 'u', 'm']
}

/// Refuses a path that does not name a `.lum` file.
pub fn check_extension(path: &str) -> (r: Result<()>)
    ensures
        r is Ok <==> has_lum_extension(path@),
        r matches Err(e) ==> (e matches CaelumError::InvalidExtension { path: p } && p@ == path@),
{
    let chars = chars_of(path);
    let mut end: usize = chars.len();
    proof {
        assert(chars@.take(end as int) == chars@);
    }
    while end > 0 && chars[end - 1] == '/'
        invariant
            end <= chars@.len(),
            trimmed_len(chars@) == trimmed_len(chars@.take(end as int)),
        decreases end,
    {
        proof {
            assert(chars@.take(end as int).drop_last() == chars@.take(end - 1));
        }
        end = end - 1;
    }
    proof {
        assert(trimmed_len(chars@.take(end as int)) == end);
    }
    let mut start: usize = end;
    while start > 0 && chars[start - 1] != '/'
        invariant
            start <= end <= chars@.len(),
            name_start(chars@, end as nat) == name_start(chars@, start as nat),
        decreases start,
    {
        start = start - 1;
    }
    let ok = end - start > 4 && chars[end - 4] == '.' && chars[end - 3] == 'l' && chars[end - 2] == 'u'
        && chars[end - 1] == 'm';
    proof {
        assert(chars@ == path@);
        let sub = path@.subrange(end - 4, end as int);
        if end - start > 4 {
            if ok {
                assert(sub =~= seq!['.', 'l', 'u', 'm']);
            } else {
                assert(sub[0] == path@[end - 4]);
                assert(sub[1] == path@[end - 3]);
                assert(sub[2] == path@[end - 2]);
                assert(sub[3] == path@[end - 1]);
                assert(seq!['.', 'l', 'u', 'm'][0] == '.');
                assert(seq!['.', 'l', 'u', 'm'][1] == 'l');
                assert(seq!['.', 'l', 'u', 'm'][2] == 'u');
                assert(seq!['.', 'l', 'u', 'm'][3] == 'm');
            }
        }
    }
    if ok {
        Ok(())
    } else {
        Err(CaelumError::InvalidExtension { path: path.to_owned() })
    }
}

} // verus!
