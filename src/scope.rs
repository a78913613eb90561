use vstd::prelude::*;

use crate::ast::{Definition, FrameDefinition, Macro, Program, Using};
use crate::error::{Error, ErrorKind};

verus! {

/// The frame and macro definitions of a program and of every file it
/// includes, and the include paths already taken.
pub struct Scope {
    frame_definitions: Vec<FrameDefinition>,
    macros: Vec<Macro>,
    includes: Vec<String>,
}

/// What a scope holds, as values.
pub struct ScopeView {
    pub frames: Seq<FrameDefinition>,
    pub macros: Seq<Macro>,
    pub includes: Seq<Seq<char>>,
}

/// No two frames and no two macros share a name.
pub open spec fn names_unique(v: ScopeView) -> bool {
    &&& forall|i: int, j: int|
        0 <= i < j < v.frames.len() ==> (#[trigger] v.frames[i]).name.value@ != (#[trigger] v.frames[j]).name.value@
    &&& forall|i: int, j: int|
        0 <= i < j < v.macros.len() ==> (#[trigger] v.macros[i]).name.value@ != (#[trigger] v.macros[j]).name.value@
}

pub open spec fn has_frame(v: ScopeView, name: Seq<char>) -> bool {
    exists|i: int| 0 <= i < v.frames.len() && (#[trigger] v.frames[i]).name.value@ == name
}

pub open spec fn has_macro(v: ScopeView, name: Seq<char>) -> bool {
    exists|i: int| 0 <= i < v.macros.len() && (#[trigger] v.macros[i]).name.value@ == name
}

/// The frame definition of that name, if there is one.
pub open spec fn frame_of(v: ScopeView, name: Seq<char>) -> Option<FrameDefinition> {
    if has_frame(v, name) {
        Some(
            v.frames[choose|i: int| 0 <= i < v.frames.len() && (#[trigger] v.frames[i]).name.value@ == name],
        )
    } else {
        None
    }
}

/// The macro of that name, if there is one.
pub open spec fn macro_of(v: ScopeView, name: Seq<char>) -> Option<Macro> {
    if has_macro(v, name) {
        Some(
            v.macros[choose|i: int| 0 <= i < v.macros.len() && (#[trigger] v.macros[i]).name.value@ == name],
        )
    } else {
        None
    }
}

/// The scope after one definition, the include path it newly asks for, and the
/// `using` region it holds; or the error of a second definition of a name.
pub open spec fn with_definition(v: ScopeView, d: Definition) -> core::result::Result<
    (ScopeView, Seq<Seq<char>>, Seq<Using>),
    Error,
> {
    match d {
        Definition::Include(path) => if v.includes.contains(path@) {
            Ok((v, seq![], seq![]))
        } else {
            Ok((ScopeView { includes: v.includes.push(path@), ..v }, seq![path@], seq![]))
        },
        Definition::Frame(f) => if has_frame(v, f.name.value@) {
            Err(
                Error {
                    span: f.name.span,
                    kind: ErrorKind::MultipleDefinitions(f.name.value),
                },
            )
        } else {
            Ok((ScopeView { frames: v.frames.push(f), ..v }, seq![], seq![]))
        },
        Definition::Macro(m) => if has_macro(v, m.name.value@) {
            Err(
                Error {
                    span: m.name.span,
                    kind: ErrorKind::MultipleDefinitions(m.name.value),
                },
            )
        } else {
            Ok((ScopeView { macros: v.macros.push(m), ..v }, seq![], seq![]))
        },
        Definition::Using(u) => Ok((v, seq![], seq![u])),
    }
}

/// The scope after the first `n` definitions, with the include paths they
/// newly ask for and their `using` regions, in order; or the first error.
pub open spec fn with_definitions(v: ScopeView, defs: Seq<Definition>, n: int)
    -> core::result::Result<(ScopeView, Seq<Seq<char>>, Seq<Using>), Error>
    decreases n,
{
    if n <= 0 {
        Ok((v, seq![], seq![]))
    } else {
        match with_definitions(v, defs, n - 1) {
            Err(e) => Err(e),
            Ok((s, inc, us)) => match with_definition(s, defs[n - 1]) {
                Err(e) => Err(e),
                Ok((s2, inc2, us2)) => Ok((s2, inc + inc2, us + us2)),
            },
        }
    }
}

/// Once adding definitions has failed, adding more fails with the same error.
proof fn lemma_error_persists(v: ScopeView, defs: Seq<Definition>, k: int, m: int)
    requires
        0 <= k <= m,
        with_definitions(v, defs, k) is Err,
    ensures
        with_definitions(v, defs, m) == with_definitions(v, defs, k),
    decreases m - k,
{
    if m > k {
        lemma_error_persists(v, defs, k, m - 1);
    }
}

/// Adding the first `n` definitions depends on those definitions alone.
proof fn lemma_with_definitions_prefix(v: ScopeView, a: Seq<Definition>, b: Seq<Definition>, n: int)
    requires
        0 <= n <= a.len(),
        n <= b.len(),
        a.take(n) == b.take(n),
    ensures
        with_definitions(v, a, n) == with_definitions(v, b, n),
    decreases n,
{
    if n > 0 {
        assert(a.take(n - 1) == a.take(n).take(n - 1));
        assert(b.take(n - 1) == b.take(n).take(n - 1));
        assert(a[n - 1] == a.take(n)[n - 1]);
        assert(b[n - 1] == b.take(n)[n - 1]);
        lemma_with_definitions_prefix(v, a, b, n - 1);
    }
}

/// Once a path is included, it stays among the scope's include paths.
proof fn lemma_include_kept(v: ScopeView, defs: Seq<Definition>, i: int, k: int)
    requires
        0 <= i < k <= defs.len(),
        defs[i] is Include,
        with_definitions(v, defs, k) is Ok,
    ensures
        with_definitions(v, defs, k)->Ok_0.0.includes.contains(defs[i]->Include_0@),
    decreases k,
{
    if k > i + 1 {
        lemma_include_kept(v, defs, i, k - 1);
        let s = with_definitions(v, defs, k - 1)->Ok_0.0;
        let s2 = with_definitions(v, defs, k)->Ok_0.0;
        let p = defs[i]->Include_0@;
        let w = choose|w: int| 0 <= w < s.includes.len() && s.includes[w] == p;
        match defs[k - 1] {
            Definition::Include(path) => if !s.includes.contains(path@) {
                assert(s2.includes[w] == p);
            },
            _ => {
                assert(s2.includes[w] == p);
            },
        }
    } else {
        let p = defs[i]->Include_0@;
        let s = with_definitions(v, defs, k - 1)->Ok_0.0;
        let s2 = with_definitions(v, defs, k)->Ok_0.0;
        if !s.includes.contains(p) {
            assert(s2.includes[s.includes.len() as int] == p);
        }
    }
}

/// Past the inserted line, the longer list of definitions behaves as the
/// shorter one.
proof fn lemma_after_duplicate(
    v: ScopeView,
    defs: Seq<Definition>,
    j: int,
    line: Definition,
    k: int,
)
    requires
        0 <= j <= k <= defs.len(),
        with_definitions(v, defs.insert(j, line), j + 1) == with_definitions(v, defs, j),
    ensures
        with_definitions(v, defs.insert(j, line), k + 1) == with_definitions(v, defs, k),
    decreases k,
{
    if k > j {
        lemma_after_duplicate(v, defs, j, line, k - 1);
        assert(defs.insert(j, line)[k] == defs[k - 1]);
    }
}

/// Including a path a second time changes nothing: adding a program's
/// definitions with an extra `include` line for a path that an earlier line
/// already includes gives the same scope, the same paths to read, the same
/// `using` regions, or the same error.
pub proof fn law_include_idempotent(
    v: ScopeView,
    defs: Seq<Definition>,
    i: int,
    j: int,
    path: String,
)
    requires
        0 <= i < j <= defs.len(),
        defs[i] is Include,
        defs[i]->Include_0@ == path@,
    ensures
        with_definitions(v, defs.insert(j, Definition::Include(path)), defs.len() as int + 1)
            == with_definitions(v, defs, defs.len() as int),
{
    let line = Definition::Include(path);
    let longer = defs.insert(j, line);
    assert(longer.take(j) =~= defs.take(j));
    lemma_with_definitions_prefix(v, longer, defs, j);
    assert(longer[j] == line);
    match with_definitions(v, defs, j) {
        Err(_) => {},
        Ok((s, inc, us)) => {
            lemma_include_kept(v, defs, i, j);
            assert(inc + Seq::<Seq<char>>::empty() =~= inc);
            assert(us + Seq::<Using>::empty() =~= us);
        },
    }
    lemma_after_duplicate(v, defs, j, line, defs.len() as int);
}

impl View for Scope {
    type V = ScopeView;

    closed spec fn view(&self) -> ScopeView {
        ScopeView {
            frames: self.frame_definitions@,
            macros: self.macros@,
            includes: self.includes@.map_values(|s: String| s@),
        }
    }
}

impl Scope {
    pub open spec fn wf(&self) -> bool {
        names_unique(self@)
    }

    /// An empty scope.
    pub fn new() -> (r: Self)
        ensures
            r.wf(),
            r@.frames.len() == 0,
            r@.macros.len() == 0,
            r@.includes.len() == 0,
    {
        let r = Scope { frame_definitions: Vec::new(), macros: Vec::new(), includes: Vec::new() };
        assert(r@.includes =~= Seq::<Seq<char>>::empty());
        r
    }

    fn contains_include(&self, path: &String) -> (r: bool)
        ensures
            r == self@.includes.contains(path@),
    {
        let mut i: usize = 0;
        while i < self.includes.len()
            invariant
                0 <= i <= self.includes@.len(),
                forall|k: int| 0 <= k < i ==> self.includes@[k]@ != path@,
            decreases self.includes@.len() - i,
        {
            if self.includes[i] == *path {
                assert(self@.includes[i as int] == path@);
                return true;
            }
            i += 1;
        }
        proof {
            if self@.includes.contains(path@) {
                let k = choose|k: int| 0 <= k < self@.includes.len() && self@.includes[k] == path@;
                assert(self.includes@[k]@ == path@);
            }
        }
        false
    }

    fn frame_index(&self, name: &str) -> (r: Option<usize>)
        ensures
            match r {
                Some(i) => i < self@.frames.len() && self@.frames[i as int].name.value@ == name@,
                None => !has_frame(self@, name@),
            },
    {
        let wanted = name.to_string();
        assert(wanted@ == name@);
        let mut i: usize = 0;
        while i < self.frame_definitions.len()
            invariant
                0 <= i <= self.frame_definitions@.len(),
                forall|k: int| 0 <= k < i ==> self.frame_definitions@[k].name.value@ != name@,
                wanted@ == name@,
            decreases self.frame_definitions@.len() - i,
        {
            if self.frame_definitions[i].name.value == wanted {
                return Some(i);
            }
            i += 1;
        }
        None
    }

    fn macro_index(&self, name: &str) -> (r: Option<usize>)
        ensures
            match r {
                Some(i) => i < self@.macros.len() && self@.macros[i as int].name.value@ == name@,
                None => !has_macro(self@, name@),
            },
    {
        let wanted = name.to_string();
        assert(wanted@ == name@);
        let mut i: usize = 0;
        while i < self.macros.len()
            invariant
                0 <= i <= self.macros@.len(),
                forall|k: int| 0 <= k < i ==> self.macros@[k].name.value@ != name@,
                wanted@ == name@,
            decreases self.macros@.len() - i,
        {
            if self.macros[i].name.value == wanted {
                return Some(i);
            }
            i += 1;
        }
        None
    }

    /// The frame definition of that name.
    pub fn frame_definition(&self, name: &str) -> (r: Option<&FrameDefinition>)
        requires
            self.wf(),
        ensures
            r matches Some(f) ==> frame_of(self@, name@) == Some(*f),
            r is None ==> frame_of(self@, name@) is None,
    {
        match self.frame_index(name) {
            Some(i) => {
                proof {
                    let j = choose|j: int|
                        0 <= j < self@.frames.len() && (#[trigger] self@.frames[j]).name.value@ == name@;
                    assert(j == i as int) by {
                        if j < i {
                            assert(self@.frames[j].name.value@ != self@.frames[i as int].name.value@);
                        } else if j > i {
                            assert(self@.frames[i as int].name.value@ != self@.frames[j].name.value@);
                        }
                    }
                }
                Some(&self.frame_definitions[i])
            },
            None => None,
        }
    }

    /// The macro of that name.
    pub fn macro_(&self, name: &str) -> (r: Option<&Macro>)
        requires
            self.wf(),
        ensures
            r matches Some(m) ==> macro_of(self@, name@) == Some(*m),
            r is None ==> macro_of(self@, name@) is None,
    {
        match self.macro_index(name) {
            Some(i) => {
                proof {
                    let j = choose|j: int|
                        0 <= j < self@.macros.len() && (#[trigger] self@.macros[j]).name.value@ == name@;
                    assert(j == i as int) by {
                        if j < i {
                            assert(self@.macros[j].name.value@ != self@.macros[i as int].name.value@);
                        } else if j > i {
                            assert(self@.macros[i as int].name.value@ != self@.macros[j].name.value@);
                        }
                    }
                }
                Some(&self.macros[i])
            },
            None => None,
        }
    }

    /// Takes in (and out of `program`) the definitions of one file, in order. Returns the include
    /// paths that this scope had not seen before, which the caller reads,
    /// parses and adds in turn, and the file's `using` regions. A second
    /// frame or macro of one name is an error.
    pub fn add_program(&mut self, program: &mut Program) -> (r: Result<(Vec<String>, Vec<Using>), Error>)
        requires
            old(self).wf(),
        ensures
            final(self).wf(),
            r is Ok ==> final(program)@.len() == 0,
            match with_definitions(old(self)@, old(program)@, old(program)@.len() as int) {
                Ok((s, inc, us)) => r matches Ok((paths, usings)) && final(self)@ == s
                    && paths@.map_values(|p: String| p@) == inc && usings@ == us,
                Err(e) => r == Err::<(Vec<String>, Vec<Using>), Error>(e),
            },
    {
        let ghost defs = program@;
        let total = program.len();
        let ghost n = total as int;
        let mut paths: Vec<String> = Vec::new();
        let mut usings: Vec<Using> = Vec::new();
        let mut i: usize = 0;
        while program.len() > 0
            invariant
                self.wf(),
                0 <= i <= n,
                n == total,
                defs.len() == n,
                program@ == defs.subrange(i as int, n),
                defs == old(program)@,
                with_definitions(old(self)@, defs, i as int) matches Ok((s, inc, us)) && self@ == s
                    && paths@.map_values(|p: String| p@) == inc && usings@ == us,
            decreases program@.len(),
        {
            let definition = program.remove(0);
            assert(definition == defs[i as int]);
            let ghost before = self@;
            match definition {
                Definition::Include(file_path) => {
                    if !self.contains_include(&file_path) {
                        let ghost p = paths@;
                        paths.push(file_path.clone());
                        self.includes.push(file_path);
                        assert(paths@.map_values(|p: String| p@) =~= p.map_values(|p: String| p@).push(file_path@));
                        assert(self@.includes =~= before.includes.push(file_path@));
                        assert(self@ == ScopeView { includes: before.includes.push(file_path@), ..before });
                    }
                    assert(usings@ == usings@ + Seq::<Using>::empty());
                },
                Definition::Frame(frame) => {
                    if self.frame_index(frame.name.value.as_str()).is_some() {
                        proof {
                            assert(has_frame(self@, frame.name.value@));
                            assert(with_definitions(old(self)@, defs, i as int + 1) == Err::<(ScopeView, Seq<Seq<char>>, Seq<Using>), Error>(Error { span: frame.name.span, kind: ErrorKind::MultipleDefinitions(frame.name.value) }));
                            lemma_error_persists(old(self)@, defs, i as int + 1, n);
                        }
                        return Err(
                            Error {
                                span: frame.name.span,
                                kind: ErrorKind::MultipleDefinitions(frame.name.value),
                            },
                        );
                    }
                    self.frame_definitions.push(frame);
                    assert(self@.includes =~= before.includes);
                    assert(self@ == ScopeView { frames: before.frames.push(frame), ..before });
                },
                Definition::Macro(macro_) => {
                    if self.macro_index(macro_.name.value.as_str()).is_some() {
                        proof {
                            assert(has_macro(self@, macro_.name.value@));
                            assert(with_definitions(old(self)@, defs, i as int + 1) == Err::<(ScopeView, Seq<Seq<char>>, Seq<Using>), Error>(Error { span: macro_.name.span, kind: ErrorKind::MultipleDefinitions(macro_.name.value) }));
                            lemma_error_persists(old(self)@, defs, i as int + 1, n);
                        }
                        return Err(
                            Error {
                                span: macro_.name.span,
                                kind: ErrorKind::MultipleDefinitions(macro_.name.value),
                            },
                        );
                    }
                    self.macros.push(macro_);
                    assert(self@.includes =~= before.includes);
                    assert(self@ == ScopeView { macros: before.macros.push(macro_), ..before });
                },
                Definition::Using(using) => {
                    let ghost u = usings@;
                    usings.push(using);
                    assert(usings@ == u + seq![using]);
                },
            }
            assert(paths@.map_values(|p: String| p@) =~= paths@.map_values(|p: String| p@) + Seq::<Seq<char>>::empty()) ;
            i += 1;
        }
        assert(defs.subrange(i as int, n).len() == 0);
        Ok((paths, usings))
    }
}

} // verus!
