use crate::bytes::{copy_bytes, same_bytes};
use std::sync::Arc;
use swc_core::common::comments::SingleThreadedComments;
use swc_core::common::{Globals, Mark, SourceMap, SyntaxContext, GLOBALS};
use swc_core::ecma::ast::{Id, Program};
use swc_core::ecma::atoms::Atom;
use swc_core::ecma::transforms::base::hygiene::{hygiene, Config};
use swc_core::ecma::transforms::base::rename::{rename_with_config, RenameMap};
use swc_core::ecma::utils::{collect_decls, collect_decls_with_ctxt};
use swc_core::ecma::visit::VisitMutWith;
use vstd::multiset::Multiset;
use vstd::prelude::*;

verus! {

#[verifier::external_type_specification]
#[verifier::external_body]
pub struct ExProgram(Program);

#[verifier::external_type_specification]
#[verifier::external_body]
pub struct ExGlobals(Globals);

#[verifier::external_type_specification]
#[verifier::external_body]
pub struct ExSourceMap(SourceMap);

#[verifier::external_type_specification]
#[verifier::external_body]
pub struct ExComments(SingleThreadedComments);

/// The scope description of a program: the mark of the identifiers that no
/// binding of the program resolves, the mark of the bindings made at module
/// scope, and the syntax context that the bindings at module scope have, each
/// by its number.
#[derive(Clone, Copy, Debug, PartialEq, Eq, Structural)]
pub struct EvalContext {
    pub unresolved_mark: u32,
    pub top_level_mark: u32,
    pub top_level_context: u32,
}

impl EvalContext {
    pub fn new(unresolved_mark: u32, top_level_mark: u32, top_level_context: u32) -> (context:
        Self)
        ensures
            context == (EvalContext { unresolved_mark, top_level_mark, top_level_context }),
    {
        EvalContext { unresolved_mark, top_level_mark, top_level_context }
    }
}

/// What parsing a module gave: the program with what belongs to it, or the
/// reason why there is none.
pub enum ParseResult {
    Parsed {
        program: Program,
        comments: SingleThreadedComments,
        eval_context: EvalContext,
        globals: Arc<Globals>,
        source_map: Arc<SourceMap>,
    },
    Unparseable,
    NotFound,
}

impl ParseResult {
    /// Whether parsing failed.
    pub open spec fn is_failure(&self) -> bool {
        !(self is Parsed)
    }

    /// The parse result of a program after a pass has rewritten it: the new
    /// program, a scope description made anew from the numbers of the old
    /// one, and the rest as it was.
    pub fn rewritten(
        program: Program,
        comments: SingleThreadedComments,
        eval_context: EvalContext,
        globals: Arc<Globals>,
        source_map: Arc<SourceMap>,
    ) -> (result: ParseResult)
        ensures
            result == (ParseResult::Parsed {
                program,
                comments,
                eval_context: EvalContext {
                    unresolved_mark: eval_context.unresolved_mark,
                    top_level_mark: eval_context.top_level_mark,
                    top_level_context: eval_context.top_level_context,
                },
                globals,
                source_map,
            }),
    {
        let eval_context = EvalContext::new(
            eval_context.unresolved_mark,
            eval_context.top_level_mark,
            eval_context.top_level_context,
        );
        ParseResult::Parsed { program, comments, eval_context, globals, source_map }
    }
}

/// The program that the pass of
/// `swc_core::ecma::transforms::base::hygiene::hygiene` makes of a program:
/// identifiers that differ only by their syntax context have got different
/// names.
pub uninterp spec fn hygiene_of(program: Program) -> Program;

/// Runs the pass that `swc_core::ecma::transforms::base::hygiene::hygiene`
/// makes over the program, inside `GLOBALS.set` with the given table, and
/// hands the program back: the program that `hygiene_of` names. As the pass
/// is configured there, it looks nothing up in the table.
#[verifier::external_body]
fn hygiene_pass(program: Program, globals: &Globals) -> (renamed: Program)
    ensures
        renamed == hygiene_of(program),
{
    let mut program = program;
    GLOBALS.set(globals, || program.visit_mut_with(&mut hygiene()));
    program
}

/// A parsed module with another program in the place of its own.
pub open spec fn with_program(module: ParseResult, program: Program) -> ParseResult {
    ParseResult::Parsed {
        program,
        comments: module->comments,
        eval_context: module->eval_context,
        globals: module->globals,
        source_map: module->source_map,
    }
}

/// Renames the identifiers of one module so that identifiers which differ
/// only by their syntax context get different names. A module that did not
/// parse is handed back as it is.
pub fn rename_module(module: ParseResult) -> (renamed: ParseResult)
    ensures
        module.is_failure() ==> renamed == module,
        module is Parsed ==> renamed == with_program(module, hygiene_of(module->program)),
{
    match module {
        ParseResult::Parsed { program, comments, eval_context, globals, source_map } => {
            let program = hygiene_pass(program, &globals);
            ParseResult::rewritten(program, comments, eval_context, globals, source_map)
        },
        failure => failure,
    }
}

} // verus!

verus! {

/// Where a binding was made: at module scope, or in a function or block.
#[derive(Clone, Copy, Debug, PartialEq, Eq, Structural)]
pub enum Scope {
    TopLevel,
    Nested,
}

/// One binding of a program. Its place in the table is its identity.
#[derive(Debug)]
pub struct Binding {
    pub name: Vec<u8>,
    pub scope: Scope,
}

pub struct BindingView {
    pub name: Seq<u8>,
    pub scope: Scope,
}

impl View for Binding {
    type V = BindingView;

    open spec fn view(&self) -> BindingView {
        BindingView { name: self.name@, scope: self.scope }
    }
}

/// One use of an identifier: its name, and the binding that it resolves to.
/// A use without a binding is free: it means something outside the program.
#[derive(Debug)]
pub struct Reference {
    pub name: Vec<u8>,
    pub binding: Option<usize>,
}

pub struct ReferenceView {
    pub name: Seq<u8>,
    pub binding: Option<usize>,
}

impl View for Reference {
    type V = ReferenceView;

    open spec fn view(&self) -> ReferenceView {
        ReferenceView { name: self.name@, binding: self.binding }
    }
}

/// The bindings of one program and the uses of its identifiers.
#[derive(Debug)]
pub struct ScopeTable {
    pub bindings: Vec<Binding>,
    pub references: Vec<Reference>,
}

pub struct ScopeTableView {
    pub bindings: Seq<BindingView>,
    pub references: Seq<ReferenceView>,
}

impl View for ScopeTable {
    type V = ScopeTableView;

    open spec fn view(&self) -> ScopeTableView {
        ScopeTableView {
            bindings: self.bindings@.map_values(|b: Binding| b@),
            references: self.references@.map_values(|r: Reference| r@),
        }
    }
}

/// What a naming authority knows: the names that are taken in the merged
/// scope, in the order in which they were taken, and a length that none of
/// them exceeds.
pub struct Authority {
    pub names: Seq<Seq<u8>>,
    pub width: nat,
}

impl Authority {
    pub open spec fn wf(self) -> bool {
        forall|i: int| 0 <= i < self.names.len() ==> (#[trigger] self.names[i]).len() <= self.width
    }

    /// The name that a binding called `name` gets: its own where that is
    /// free, else its own made longer than every taken name with `_`.
    pub open spec fn fresh_name(self, name: Seq<u8>) -> Seq<u8> {
        if self.names.contains(name) {
            name + Seq::new((self.width + 1 - name.len()) as nat, |i: int| 95u8)
        } else {
            name
        }
    }

    /// The authority once `name` is taken too.
    pub open spec fn taking(self, name: Seq<u8>) -> Authority {
        Authority {
            names: self.names.push(name),
            width: if name.len() > self.width {
                name.len()
            } else {
                self.width
            },
        }
    }

    /// The authority once a binding called `name` has got its name.
    pub open spec fn granting(self, name: Seq<u8>) -> Authority {
        self.taking(self.fresh_name(name))
    }

    /// The authority once the first `n` of the bindings have got their names.
    /// Only bindings at module scope get one from it.
    pub open spec fn after(self, bindings: Seq<BindingView>, n: nat) -> Authority
        decreases n,
    {
        if n == 0 || n > bindings.len() {
            self
        } else {
            let before = self.after(bindings, (n - 1) as nat);
            if bindings[n - 1].scope == Scope::TopLevel {
                before.granting(bindings[n - 1].name)
            } else {
                before
            }
        }
    }

    /// The name of the binding at `i` after renaming.
    pub open spec fn renamed_name(self, bindings: Seq<BindingView>, i: int) -> Seq<u8> {
        if bindings[i].scope == Scope::TopLevel {
            self.after(bindings, i as nat).fresh_name(bindings[i].name)
        } else {
            bindings[i].name
        }
    }

    /// The bindings after renaming.
    pub open spec fn renamed_bindings(self, bindings: Seq<BindingView>) -> Seq<BindingView> {
        Seq::new(
            bindings.len(),
            |i: int|
                BindingView { name: self.renamed_name(bindings, i), scope: bindings[i].scope },
        )
    }

    /// The authority once it has seen the table: its width is then no less
    /// than the length of any name in the table, so that a name that it makes
    /// longer than its width is none of the table's own.
    pub open spec fn widened(self, table: ScopeTableView) -> Authority {
        Authority {
            names: self.names,
            width: widest(self.width, table_names(table), table_names(table).len()),
        }
    }

    /// The table after renaming: each binding under its new name, and each
    /// use under the new name of its binding. A free use is left as it is.
    pub open spec fn renamed(self, table: ScopeTableView) -> ScopeTableView {
        let bindings = self.widened(table).renamed_bindings(table.bindings);
        ScopeTableView {
            bindings,
            references: Seq::new(
                table.references.len(),
                |r: int| renamed_reference(table.references[r], bindings),
            ),
        }
    }

    /// The authority after it has renamed the table.
    pub open spec fn after_table(self, table: ScopeTableView) -> Authority {
        self.widened(table).after(table.bindings, table.bindings.len())
    }

    /// Whether every name that renaming the table may make fits in memory.
    pub open spec fn has_room_for(self, table: ScopeTableView) -> bool {
        &&& self.widened(table).width + table.bindings.len() < usize::MAX
        &&& forall|i: int|
            0 <= i < table.bindings.len() ==> (#[trigger] table.bindings[i]).name.len()
                + table.bindings.len() < usize::MAX
    }
}

/// The names in a table: those of its bindings, then those of its uses.
pub open spec fn table_names(table: ScopeTableView) -> Seq<Seq<u8>> {
    Seq::new(
        table.bindings.len() + table.references.len(),
        |i: int|
            if i < table.bindings.len() {
                table.bindings[i].name
            } else {
                table.references[i - table.bindings.len()].name
            },
    )
}

/// The greatest of `floor` and the lengths of the first `n` names.
pub open spec fn widest(floor: nat, names: Seq<Seq<u8>>, n: nat) -> nat
    decreases n,
{
    if n == 0 || n > names.len() {
        floor
    } else {
        let before = widest(floor, names, (n - 1) as nat);
        if names[n - 1].len() > before {
            names[n - 1].len()
        } else {
            before
        }
    }
}

/// A use under the new name of its binding. A free use, and one whose binding
/// the table does not hold, is left as it is.
pub open spec fn renamed_reference(reference: ReferenceView, bindings: Seq<BindingView>) -> ReferenceView {
    match reference.binding {
        Some(target) => if target < bindings.len() {
            ReferenceView { name: bindings[target as int].name, binding: reference.binding }
        } else {
            reference
        },
        None => reference,
    }
}

/// The naming authority of one merged scope. Programs that will share the
/// scope are renamed one after the other by the same authority: bindings at
/// module scope get their names from it in the order of the tables, and
/// within a table in the order of its bindings. Bindings in nested scopes
/// never meet at run time and keep their names.
pub struct Renamer {
    names: Vec<Vec<u8>>,
    width: usize,
}

impl View for Renamer {
    type V = Authority;

    closed spec fn view(&self) -> Authority {
        Authority { names: self.names@.map_values(|n: Vec<u8>| n@), width: self.width as nat }
    }
}

impl Renamer {
    #[verifier::type_invariant]
    closed spec fn well_formed(self) -> bool {
        self@.wf()
    }

    pub fn new() -> (renamer: Self)
        ensures
            renamer@ == (Authority { names: Seq::empty(), width: 0 }),
            renamer@.wf(),
    {
        let renamer = Renamer { names: Vec::new(), width: 0 };
        assert(renamer@.names =~= Seq::empty());
        renamer
    }

    /// Whether the name is taken.
    pub fn is_taken(&self, name: &Vec<u8>) -> (taken: bool)
        ensures
            taken == self@.names.contains(name@),
    {
        let mut i: usize = 0;
        while i < self.names.len()
            invariant
                i <= self.names@.len(),
                forall|k: int| 0 <= k < i ==> self@.names[k] != name@,
            decreases self.names@.len() - i,
        {
            if same_bytes(&self.names[i], name) {
                assert(self@.names[i as int] == name@);
                return true;
            }
            i += 1;
        }
        false
    }

    /// Takes a name that no binding at module scope may get: that of a free
    /// identifier of a program of the merged scope, or of anything else that
    /// the scope has to leave alone. A name that is to stay free is taken
    /// before the first program of the scope is renamed.
    pub fn reserve(&mut self, name: &Vec<u8>)
        ensures
            old(self)@.wf(),
            final(self)@ == old(self)@.taking(name@),
            final(self)@.wf(),
    {
        proof {
            use_type_invariant(&*self);
        }
        let ghost before = self@;
        let width = if name.len() > self.width {
            name.len()
        } else {
            self.width
        };
        let mut names: Vec<Vec<u8>> = Vec::new();
        std::mem::swap(&mut names, &mut self.names);
        names.push(copy_bytes(name));
        assert(names@.map_values(|n: Vec<u8>| n@) =~= before.names.push(name@));
        *self = Renamer { names, width };
    }

    /// Gives a binding called `name` its name in the merged scope, and takes
    /// that name.
    fn grant(&mut self, name: &Vec<u8>) -> (granted: Vec<u8>)
        requires
            old(self)@.width < usize::MAX,
        ensures
            old(self)@.wf(),
            granted@ == old(self)@.fresh_name(name@),
            final(self)@ == old(self)@.granting(name@),
            final(self)@.wf(),
            !old(self)@.names.contains(granted@),
    {
        proof {
            use_type_invariant(&*self);
        }
        let ghost before = self@;
        let mut granted = copy_bytes(name);
        if self.is_taken(name) {
            assert(name@.len() <= before.width) by {
                let i = choose|i: int| 0 <= i < before.names.len() && before.names[i] == name@;
                assert(before.names[i].len() <= before.width);
            }
            let target = self.width + 1;
            while granted.len() < target
                invariant
                    name@.len() <= granted@.len() <= target,
                    target == before.width + 1,
                    granted@ == name@ + Seq::new(
                        (granted@.len() - name@.len()) as nat,
                        |i: int| 95u8,
                    ),
                decreases target - granted@.len(),
            {
                let ghost shorter = granted@;
                granted.push(95u8);
                assert(granted@ =~= name@ + Seq::new(
                    (shorter.len() + 1 - name@.len()) as nat,
                    |i: int| 95u8,
                ));
            }
            assert(!before.names.contains(granted@)) by {
                if before.names.contains(granted@) {
                    let i = choose|i: int| 0 <= i < before.names.len() && before.names[i] == granted@;
                    assert(before.names[i].len() <= before.width);
                }
            }
        }
        self.reserve(&granted);
        granted
    }

    /// The width of the authority once it has seen the table.
    fn width_with(&self, table: &ScopeTable) -> (width: usize)
        ensures
            width == self@.widened(table@).width,
    {
        let ghost names = table_names(table@);
        let mut width = self.width;
        let mut i: usize = 0;
        while i < table.bindings.len()
            invariant
                i <= table.bindings@.len(),
                names == table_names(table@),
                width == widest(self@.width, names, i as nat),
            decreases table.bindings@.len() - i,
        {
            assert(names[i as int] == table.bindings@[i as int]@.name);
            if table.bindings[i].name.len() > width {
                width = table.bindings[i].name.len();
            }
            i += 1;
        }
        let ghost done = table.bindings@.len();
        let mut r: usize = 0;
        while r < table.references.len()
            invariant
                r <= table.references@.len(),
                done == table.bindings@.len(),
                names == table_names(table@),
                width == widest(self@.width, names, (done + r) as nat),
            decreases table.references@.len() - r,
        {
            assert(names[done + r] == table.references@[r as int]@.name);
            if table.references[r].name.len() > width {
                width = table.references[r].name.len();
            }
            r += 1;
        }
        width
    }

    /// Whether every name that renaming the table may make fits in memory.
    pub fn has_room(&self, table: &ScopeTable) -> (room: bool)
        ensures
            room == self@.has_room_for(table@),
    {
        let n = table.bindings.len();
        if self.width_with(table) >= usize::MAX - n {
            return false;
        }
        let mut i: usize = 0;
        while i < n
            invariant
                i <= n,
                n == table.bindings@.len(),
                forall|k: int|
                    0 <= k < i ==> (#[trigger] table@.bindings[k]).name.len() + n < usize::MAX,
            decreases n - i,
        {
            if table.bindings[i].name.len() >= usize::MAX - n {
                assert(table@.bindings[i as int].name.len() + n >= usize::MAX);
                return false;
            }
            assert(table@.bindings[i as int] == table.bindings@[i as int]@);
            i += 1;
        }
        true
    }

    /// Renames the table where there is room for the names, and else leaves
    /// the authority as it is.
    pub fn try_rename(&mut self, table: &ScopeTable) -> (renamed: Option<ScopeTable>)
        ensures
            renamed is Some <==> old(self)@.has_room_for(table@),
            renamed is Some ==> renamed->Some_0@ == old(self)@.renamed(table@),
            renamed is Some ==> final(self)@ == old(self)@.after_table(table@),
            renamed is None ==> final(self)@ == old(self)@,
            final(self)@.wf(),
    {
        proof {
            use_type_invariant(&*self);
        }
        if self.has_room(table) {
            Some(self.rename(table))
        } else {
            None
        }
    }

    /// Renames one program for the merged scope. Each binding at module
    /// scope gets its name from the authority, in the order of the table;
    /// each use gets the new name of its binding. Bindings in nested scopes
    /// and free uses keep their names, and no binding is given a new name
    /// that the table holds already.
    pub fn rename(&mut self, table: &ScopeTable) -> (renamed: ScopeTable)
        requires
            old(self)@.has_room_for(table@),
        ensures
            old(self)@.wf(),
            renamed@ == old(self)@.renamed(table@),
            final(self)@ == old(self)@.after_table(table@),
            final(self)@.wf(),
    {
        proof {
            use_type_invariant(&*self);
            widest_bounds(self@.width, table_names(table@), table_names(table@).len());
        }
        let width = self.width_with(table);
        let mut names: Vec<Vec<u8>> = Vec::new();
        std::mem::swap(&mut names, &mut self.names);
        *self = Renamer { names, width };
        let ghost start = self@;
        assert(start == old(self)@.widened(table@));
        let ghost given = table@.bindings;
        let n = table.bindings.len();
        let mut bindings: Vec<Binding> = Vec::new();
        let mut i: usize = 0;
        while i < n
            invariant
                i <= n,
                n == table.bindings@.len(),
                given == table@.bindings,
                forall|k: int|
                    0 <= k < n ==> (#[trigger] table@.bindings[k]).name.len() + n < usize::MAX,
                self@.wf(),
                self@ == start.after(given, i as nat),
                self@.width + (n - i) < usize::MAX,
                bindings@.len() == i,
                forall|k: int|
                    0 <= k < i ==> (#[trigger] bindings@[k])@ == start.renamed_bindings(given)[k],
            decreases n - i,
        {
            let binding = &table.bindings[i];
            assert(given[i as int] == binding@);
            let name = match binding.scope {
                Scope::TopLevel => self.grant(&binding.name),
                Scope::Nested => copy_bytes(&binding.name),
            };
            bindings.push(Binding { name, scope: binding.scope });
            i += 1;
        }
        let ghost renamed_bindings = start.renamed_bindings(given);
        assert(bindings@.map_values(|b: Binding| b@) =~= renamed_bindings);
        let mut references: Vec<Reference> = Vec::new();
        let mut r: usize = 0;
        while r < table.references.len()
            invariant
                r <= table.references@.len(),
                bindings@.map_values(|b: Binding| b@) == renamed_bindings,
                references@.len() == r,
                forall|k: int|
                    0 <= k < r ==> (#[trigger] references@[k])@ == renamed_reference(
                        table@.references[k],
                        renamed_bindings,
                    ),
            decreases table.references@.len() - r,
        {
            let reference = &table.references[r];
            assert(table@.references[r as int] == reference@);
            let name = match reference.binding {
                Some(target) => if target < bindings.len() {
                    assert(renamed_bindings[target as int] == bindings@[target as int]@);
                    copy_bytes(&bindings[target].name)
                } else {
                    copy_bytes(&reference.name)
                },
                None => copy_bytes(&reference.name),
            };
            references.push(Reference { name, binding: reference.binding });
            r += 1;
        }
        let renamed = ScopeTable { bindings, references };
        assert(renamed@.references =~= old(self)@.renamed(table@).references);
        renamed
    }
}

} // verus!

verus! {

/// The name that an authority grants is not one of those it holds, and it
/// holds the name afterwards.
pub proof fn granted_name_is_new(state: Authority, name: Seq<u8>)
    requires
        state.wf(),
    ensures
        !state.names.contains(state.fresh_name(name)),
        state.granting(name).names.contains(state.fresh_name(name)),
        state.granting(name).wf(),
{
    let fresh = state.fresh_name(name);
    if state.names.contains(name) {
        let at = choose|i: int| 0 <= i < state.names.len() && state.names[i] == name;
        assert(state.names[at].len() <= state.width);
        if state.names.contains(fresh) {
            let i = choose|i: int| 0 <= i < state.names.len() && state.names[i] == fresh;
            assert(state.names[i].len() <= state.width);
        }
    }
    assert(state.granting(name).names[state.names.len() as int] == fresh);
}

/// The width over some names is no less than the floor and than the length
/// of each of the names.
pub proof fn widest_bounds(floor: nat, names: Seq<Seq<u8>>, n: nat)
    requires
        n <= names.len(),
    ensures
        widest(floor, names, n) >= floor,
        forall|k: int| 0 <= k < n ==> (#[trigger] names[k]).len() <= widest(floor, names, n),
    decreases n,
{
    if n > 0 {
        widest_bounds(floor, names, (n - 1) as nat);
    }
}

/// An authority never loses width while it names bindings.
pub proof fn width_grows(state: Authority, bindings: Seq<BindingView>, n: nat)
    ensures
        state.after(bindings, n).width >= state.width,
    decreases n,
{
    if n != 0 && n <= bindings.len() {
        width_grows(state, bindings, (n - 1) as nat);
    }
}

/// A binding at module scope that renaming gives another name than its own
/// gets none of the names that the table holds.
pub proof fn new_names_avoid_the_table(state: Authority, table: ScopeTableView, i: int, k: int)
    requires
        state.wf(),
        0 <= i < table.bindings.len(),
        0 <= k < table_names(table).len(),
        state.renamed(table).bindings[i].name != table.bindings[i].name,
    ensures
        state.renamed(table).bindings[i].name != table_names(table)[k],
{
    let start = state.widened(table);
    widest_bounds(state.width, table_names(table), table_names(table).len());
    width_grows(start, table.bindings, i as nat);
}

/// A binding at module scope gets none of the names that the authority held
/// before it renamed the table: a name that was reserved stays with the one
/// it was reserved for.
pub proof fn renamed_names_are_new(state: Authority, table: ScopeTableView, i: int, k: int)
    requires
        state.wf(),
        0 <= i < table.bindings.len(),
        table.bindings[i].scope == Scope::TopLevel,
        0 <= k < state.names.len(),
    ensures
        state.renamed(table).bindings[i].name != state.names[k],
{
    let from = state.widened(table);
    widest_bounds(state.width, table_names(table), table_names(table).len());
    assert(from.after(table.bindings, 0).names.contains(state.names[k]));
    taken_names_stay_taken(from, table.bindings, 0, i as nat, state.names[k]);
    authority_stays_well_formed(from, table.bindings, i as nat);
    granted_name_is_new(from.after(table.bindings, i as nat), table.bindings[i].name);
}

/// An authority stays well formed while it names bindings.
pub proof fn authority_stays_well_formed(state: Authority, bindings: Seq<BindingView>, n: nat)
    requires
        state.wf(),
    ensures
        state.after(bindings, n).wf(),
    decreases n,
{
    if n != 0 && n <= bindings.len() {
        authority_stays_well_formed(state, bindings, (n - 1) as nat);
        granted_name_is_new(state.after(bindings, (n - 1) as nat), bindings[n - 1].name);
    }
}

/// A name that is taken stays taken while the authority names more bindings.
pub proof fn taken_names_stay_taken(
    state: Authority,
    bindings: Seq<BindingView>,
    n: nat,
    m: nat,
    name: Seq<u8>,
)
    requires
        n <= m <= bindings.len(),
        state.after(bindings, n).names.contains(name),
    ensures
        state.after(bindings, m).names.contains(name),
    decreases m,
{
    if n < m {
        taken_names_stay_taken(state, bindings, n, (m - 1) as nat, name);
        let before = state.after(bindings, (m - 1) as nat);
        let at = choose|i: int| 0 <= i < before.names.len() && before.names[i] == name;
        if bindings[m - 1].scope == Scope::TopLevel {
            assert(before.granting(bindings[m - 1].name).names[at] == name);
        }
    }
}

/// Within one program, two bindings at module scope have different names
/// after renaming.
pub proof fn top_level_names_are_distinct(
    state: Authority,
    bindings: Seq<BindingView>,
    i: int,
    j: int,
)
    requires
        state.wf(),
        0 <= i < j < bindings.len(),
        bindings[i].scope == Scope::TopLevel,
        bindings[j].scope == Scope::TopLevel,
    ensures
        state.renamed_name(bindings, i) != state.renamed_name(bindings, j),
{
    let first = state.renamed_name(bindings, i);
    authority_stays_well_formed(state, bindings, i as nat);
    authority_stays_well_formed(state, bindings, j as nat);
    granted_name_is_new(state.after(bindings, i as nat), bindings[i].name);
    assert(state.after(bindings, (i + 1) as nat).names.contains(first));
    taken_names_stay_taken(state, bindings, (i + 1) as nat, j as nat, first);
    granted_name_is_new(state.after(bindings, j as nat), bindings[j].name);
}

/// A binding at module scope of a program that is renamed by an authority
/// which holds every name that an earlier program of the merged scope was
/// given gets a name that differs from each of those.
pub proof fn later_names_differ(
    earlier: Authority,
    first: ScopeTableView,
    later: Authority,
    second: ScopeTableView,
    i: int,
    j: int,
)
    requires
        earlier.wf(),
        later.wf(),
        forall|name: Seq<u8>|
            earlier.after_table(first).names.contains(name) ==> later.names.contains(name),
        0 <= i < first.bindings.len(),
        first.bindings[i].scope == Scope::TopLevel,
        0 <= j < second.bindings.len(),
        second.bindings[j].scope == Scope::TopLevel,
    ensures
        earlier.renamed(first).bindings[i].name != later.renamed(second).bindings[j].name,
{
    let from = earlier.widened(first);
    let to = later.widened(second);
    widest_bounds(earlier.width, table_names(first), table_names(first).len());
    widest_bounds(later.width, table_names(second), table_names(second).len());
    let one = from.renamed_name(first.bindings, i);
    authority_stays_well_formed(from, first.bindings, i as nat);
    granted_name_is_new(from.after(first.bindings, i as nat), first.bindings[i].name);
    assert(from.after(first.bindings, (i + 1) as nat).names.contains(one));
    taken_names_stay_taken(from, first.bindings, (i + 1) as nat, first.bindings.len(), one);
    assert(later.names.contains(one));
    assert(to.after(second.bindings, 0).names.contains(one));
    taken_names_stay_taken(to, second.bindings, 0, j as nat, one);
    authority_stays_well_formed(to, second.bindings, j as nat);
    granted_name_is_new(to.after(second.bindings, j as nat), second.bindings[j].name);
}

/// Two programs that one authority renames one after the other for the same
/// merged scope have no name of a binding at module scope in common,
/// whatever the bindings were called before.
pub proof fn merged_top_level_names_differ(
    state: Authority,
    first: ScopeTableView,
    second: ScopeTableView,
    i: int,
    j: int,
)
    requires
        state.wf(),
        0 <= i < first.bindings.len(),
        first.bindings[i].scope == Scope::TopLevel,
        0 <= j < second.bindings.len(),
        second.bindings[j].scope == Scope::TopLevel,
    ensures
        state.renamed(first).bindings[i].name != state.after_table(first).renamed(
            second,
        ).bindings[j].name,
{
    widest_bounds(state.width, table_names(first), table_names(first).len());
    authority_stays_well_formed(state.widened(first), first.bindings, first.bindings.len());
    later_names_differ(state, first, state.after_table(first), second, i, j);
}

/// Renaming leaves every use with the binding it had, gives a use the name
/// that its binding has afterwards, and leaves a free use as it was.
pub proof fn references_are_kept(state: Authority, table: ScopeTableView, r: int)
    requires
        0 <= r < table.references.len(),
    ensures
        state.renamed(table).references.len() == table.references.len(),
        state.renamed(table).references[r].binding == table.references[r].binding,
        table.references[r].binding is None ==> state.renamed(table).references[r]
            == table.references[r],
        table.references[r].binding is Some && table.references[r].binding->Some_0
            < table.bindings.len() ==> state.renamed(table).references[r].name == state.renamed(
            table,
        ).bindings[table.references[r].binding->Some_0 as int].name,
{
}

/// Renaming leaves every binding in its place and in its scope, and a
/// binding in a nested scope under its name.
pub proof fn nested_bindings_are_kept(state: Authority, table: ScopeTableView, i: int)
    requires
        0 <= i < table.bindings.len(),
    ensures
        state.renamed(table).bindings.len() == table.bindings.len(),
        state.renamed(table).bindings[i].scope == table.bindings[i].scope,
        table.bindings[i].scope == Scope::Nested ==> state.renamed(table).bindings[i]
            == table.bindings[i],
{
}

} // verus!

verus! {

/// The table of a program of which only the declarations are known: those
/// at module scope are called `names`, and `others` are names that it
/// declares anywhere. It holds no uses.
pub open spec fn declared_table(names: Seq<Seq<u8>>, others: Seq<Seq<u8>>) -> ScopeTableView {
    ScopeTableView {
        bindings: Seq::new(
            names.len() + others.len(),
            |i: int|
                if i < names.len() {
                    BindingView { name: names[i], scope: Scope::TopLevel }
                } else {
                    BindingView { name: others[i - names.len()], scope: Scope::Nested }
                },
        ),
        references: Seq::empty(),
    }
}

/// The names that an authority gives to the bindings at module scope of
/// such a table, in their order.
pub open spec fn granted_names(
    state: Authority,
    names: Seq<Seq<u8>>,
    others: Seq<Seq<u8>>,
) -> Seq<Seq<u8>> {
    Seq::new(
        names.len(),
        |i: int| state.renamed(declared_table(names, others)).bindings[i].name,
    )
}

pub open spec fn name_views(names: Seq<Vec<u8>>) -> Seq<Seq<u8>> {
    names.map_values(|n: Vec<u8>| n@)
}

/// The names of the identifiers that a program declares in the syntax
/// context with the number `context`: what
/// `swc_core::ecma::utils::collect_decls_with_ctxt` finds, each identifier
/// once and in no order.
pub uninterp spec fn top_level_names(program: Program, context: u32) -> Multiset<Seq<u8>>;

/// Calls `swc_core::ecma::utils::collect_decls_with_ctxt` with the syntax
/// context that has the number `context`, and hands out the name of each
/// identifier found, as its bytes. The names are those that
/// `top_level_names` names; their order is that in which the set that comes
/// back hands them out, and nothing is claimed of it.
#[verifier::external_body]
fn top_level_declarations(program: &Program, context: u32) -> (names: Vec<Vec<u8>>)
    ensures
        name_views(names@).to_multiset() == top_level_names(*program, context),
{
    collect_decls_with_ctxt::<Id, Program>(program, SyntaxContext::from_u32(context))
        .into_iter()
        .map(|id| id.0.as_bytes().to_vec())
        .collect()
}

/// The names of the identifiers that a program declares, at module scope or
/// below it: what `swc_core::ecma::utils::collect_decls` finds, each
/// identifier of each syntax context once and in no order.
pub uninterp spec fn declared_names(program: Program) -> Multiset<Seq<u8>>;

/// Calls `swc_core::ecma::utils::collect_decls` and hands out the name of
/// each identifier found, as its bytes. The names are those that
/// `declared_names` names; their order is that in which the set that comes
/// back hands them out, and nothing is claimed of it.
#[verifier::external_body]
fn declarations(program: &Program) -> (names: Vec<Vec<u8>>)
    ensures
        name_views(names@).to_multiset() == declared_names(*program),
{
    collect_decls::<Id, Program>(program).into_iter().map(|id| id.0.as_bytes().to_vec()).collect()
}

/// The program that the pass of
/// `swc_core::ecma::transforms::base::rename::rename_with_config` makes of a
/// program, where the names of classes are not kept, for the map that takes
/// the identifier called `from[i]`, in the syntax context with the number
/// `context`, to the name `to[i]`. Names are read as text; bytes that are no
/// UTF-8 count as U+FFFD.
pub uninterp spec fn rename_of(
    program: Program,
    from: Seq<Seq<u8>>,
    to: Seq<Seq<u8>>,
    context: u32,
) -> Program;

/// Runs the pass that
/// `swc_core::ecma::transforms::base::rename::rename_with_config` makes over
/// the program, and hands the program back: the program that `rename_of`
/// names. The configuration is the one that `rename` uses, but for its mark,
/// which the pass does not read and which is the root mark here, so that no
/// table of marks is asked for.
#[verifier::external_body]
fn rename_pass(program: Program, from: &Vec<Vec<u8>>, to: &Vec<Vec<u8>>, context: u32) -> (renamed:
    Program)
    requires
        from@.len() == to@.len(),
    ensures
        renamed == rename_of(program, name_views(from@), name_views(to@), context),
{
    let mut program = program;
    let ctxt = SyntaxContext::from_u32(context);
    let map: RenameMap = from
        .iter()
        .zip(to.iter())
        .map(|(old, new)| {
            let id = (Atom::from(String::from_utf8_lossy(old)), ctxt);
            (id, Atom::from(String::from_utf8_lossy(new)))
        })
        .collect();
    let config = Config { keep_class_names: false, top_level_mark: Mark::root(), ignore_eval: false };
    program.visit_mut_with(&mut rename_with_config(&map, config));
    program
}

impl Renamer {
    /// The names that bindings at module scope called `names` get, in their
    /// order, in a program that declares the names `others` too: no new name
    /// is one of those. Where there is no room for the names, none is
    /// granted and the authority stays as it is.
    pub fn names_for(&mut self, names: &Vec<Vec<u8>>, others: &Vec<Vec<u8>>) -> (granted: Option<
        Vec<Vec<u8>>,
    >)
        ensures
            granted is Some <==> old(self)@.has_room_for(
                declared_table(name_views(names@), name_views(others@)),
            ),
            granted is Some ==> name_views(granted->Some_0@) == granted_names(
                old(self)@,
                name_views(names@),
                name_views(others@),
            ),
            granted is Some ==> granted->Some_0@.len() == names@.len(),
            granted is Some ==> final(self)@ == old(self)@.after_table(
                declared_table(name_views(names@), name_views(others@)),
            ),
            granted is None ==> final(self)@ == old(self)@,
            final(self)@.wf(),
    {
        let ghost given = name_views(names@);
        let ghost more = name_views(others@);
        let mut bindings: Vec<Binding> = Vec::new();
        let mut i: usize = 0;
        while i < names.len()
            invariant
                i <= names@.len(),
                bindings@.len() == i,
                forall|k: int|
                    0 <= k < i ==> (#[trigger] bindings@[k])@ == (BindingView {
                        name: names@[k]@,
                        scope: Scope::TopLevel,
                    }),
            decreases names@.len() - i,
        {
            bindings.push(Binding { name: copy_bytes(&names[i]), scope: Scope::TopLevel });
            i += 1;
        }
        let mut j: usize = 0;
        while j < others.len()
            invariant
                j <= others@.len(),
                bindings@.len() == names@.len() + j,
                forall|k: int|
                    0 <= k < names@.len() ==> (#[trigger] bindings@[k])@ == (BindingView {
                        name: names@[k]@,
                        scope: Scope::TopLevel,
                    }),
                forall|k: int|
                    names@.len() <= k < names@.len() + j ==> (#[trigger] bindings@[k])@
                        == (BindingView { name: others@[k - names@.len()]@, scope: Scope::Nested }),
            decreases others@.len() - j,
        {
            bindings.push(Binding { name: copy_bytes(&others[j]), scope: Scope::Nested });
            j += 1;
        }
        let table = ScopeTable { bindings, references: Vec::new() };
        assert(table@ =~= declared_table(given, more)) by {
            assert(table@.bindings =~= declared_table(given, more).bindings);
            assert(table@.references =~= declared_table(given, more).references);
        }
        let renamed = match self.try_rename(&table) {
            Some(renamed) => renamed,
            None => {
                return None;
            },
        };
        assert(renamed@.bindings.len() == names@.len() + others@.len());
        let mut granted: Vec<Vec<u8>> = Vec::new();
        let mut g: usize = 0;
        while g < names.len()
            invariant
                g <= names@.len(),
                names@.len() <= renamed.bindings@.len(),
                granted@.len() == g,
                forall|k: int| 0 <= k < g ==> (#[trigger] granted@[k])@ == renamed.bindings@[k]@.name,
            decreases names@.len() - g,
        {
            granted.push(copy_bytes(&renamed.bindings[g].name));
            g += 1;
        }
        assert(name_views(granted@) =~= granted_names(old(self)@, given, more));
        Some(granted)
    }
}

/// Two programs of which the declarations are known, renamed one after the
/// other by one authority, are handed no name in common for their bindings
/// at module scope: the names that go to the rename pass differ, whatever
/// the bindings were called before.
pub proof fn granted_names_differ(
    state: Authority,
    first_names: Seq<Seq<u8>>,
    first_others: Seq<Seq<u8>>,
    second_names: Seq<Seq<u8>>,
    second_others: Seq<Seq<u8>>,
    i: int,
    j: int,
)
    requires
        state.wf(),
        0 <= i < first_names.len(),
        0 <= j < second_names.len(),
    ensures
        granted_names(state, first_names, first_others)[i] != granted_names(
            state.after_table(declared_table(first_names, first_others)),
            second_names,
            second_others,
        )[j],
{
    merged_top_level_names_differ(
        state,
        declared_table(first_names, first_others),
        declared_table(second_names, second_others),
        i,
        j,
    );
}

/// A binding at module scope is handed none of the names that the authority
/// held before, and a name that is not its own is none that the program
/// declares.
pub proof fn granted_names_are_free(
    state: Authority,
    names: Seq<Seq<u8>>,
    others: Seq<Seq<u8>>,
    i: int,
    k: int,
    d: int,
)
    requires
        state.wf(),
        0 <= i < names.len(),
        0 <= k < state.names.len(),
        0 <= d < others.len(),
    ensures
        granted_names(state, names, others)[i] != state.names[k],
        granted_names(state, names, others)[i] != names[i] ==> granted_names(
            state,
            names,
            others,
        )[i] != others[d],
{
    let table = declared_table(names, others);
    renamed_names_are_new(state, table, i, k);
    if granted_names(state, names, others)[i] != names[i] {
        assert(table_names(table)[names.len() + d] == others[d]);
        new_names_avoid_the_table(state, table, i, names.len() + d);
    }
}

/// What comes of a parsed module whose declarations at module scope are
/// called `names`, and which declares the names `others` too, each in some
/// order. Where the authority has room for their names, it grants them in that order, and the
/// program is the one that the rename pass makes with the granted names.
/// Else module and authority stay as they are.
pub open spec fn top_level_renamed(
    before: Authority,
    module: ParseResult,
    names: Seq<Seq<u8>>,
    others: Seq<Seq<u8>>,
    after: Authority,
    renamed: ParseResult,
) -> bool {
    &&& names.to_multiset() == top_level_names(
        module->program,
        module->eval_context.top_level_context,
    )
    &&& others.to_multiset() == declared_names(module->program)
    &&& if before.has_room_for(declared_table(names, others)) {
        &&& after == before.after_table(declared_table(names, others))
        &&& renamed == with_program(
            module,
            rename_of(
                module->program,
                names,
                granted_names(before, names, others),
                module->eval_context.top_level_context,
            ),
        )
    } else {
        &&& after == before
        &&& renamed == module
    }
}

/// Renames the bindings that one module makes at module scope, for a scope
/// that it will share with the modules which the same authority has renamed
/// and will rename: each such binding, and each use of it, gets the name that
/// the authority grants. The declarations are named in the order in which
/// they are found, which is not fixed. A module that did not parse is handed
/// back as it is, and so is one for whose names there is no room; the
/// authority is then left as it was.
pub fn rename_top_level(renamer: &mut Renamer, module: ParseResult) -> (renamed: ParseResult)
    ensures
        module.is_failure() ==> renamed == module && final(renamer)@ == old(renamer)@,
        module is Parsed ==> exists|
            names: Seq<Seq<u8>>,
            others: Seq<Seq<u8>>,
        | #[trigger]
            top_level_renamed(old(renamer)@, module, names, others, final(renamer)@, renamed),
        final(renamer)@.wf(),
{
    proof {
        use_type_invariant(&*renamer);
    }
    match module {
        ParseResult::Parsed { program, comments, eval_context, globals, source_map } => {
            let names = top_level_declarations(&program, eval_context.top_level_context);
            let others = declarations(&program);
            let renamed = match renamer.names_for(&names, &others) {
                Some(granted) => {
                    let program = rename_pass(
                        program,
                        &names,
                        &granted,
                        eval_context.top_level_context,
                    );
                    ParseResult::rewritten(program, comments, eval_context, globals, source_map)
                },
                None => ParseResult::Parsed { program, comments, eval_context, globals, source_map },
            };
            assert(top_level_renamed(
                old(renamer)@,
                module,
                name_views(names@),
                name_views(others@),
                renamer@,
                renamed,
            ));
            renamed
        },
        failure => failure,
    }
}

/// What comes of a parsed module whose declarations at module scope are
/// called `names`, and which declares the names `others` too, once its
/// bindings at module scope and then its other identifiers have been renamed.
pub open spec fn merged(
    before: Authority,
    module: ParseResult,
    names: Seq<Seq<u8>>,
    others: Seq<Seq<u8>>,
    after: Authority,
    renamed: ParseResult,
) -> bool {
    &&& names.to_multiset() == top_level_names(
        module->program,
        module->eval_context.top_level_context,
    )
    &&& others.to_multiset() == declared_names(module->program)
    &&& if before.has_room_for(declared_table(names, others)) {
        &&& after == before.after_table(declared_table(names, others))
        &&& renamed == with_program(
            module,
            hygiene_of(
                rename_of(
                    module->program,
                    names,
                    granted_names(before, names, others),
                    module->eval_context.top_level_context,
                ),
            ),
        )
    } else {
        &&& after == before
        &&& renamed == with_program(module, hygiene_of(module->program))
    }
}

/// Renames one module for the scope that it will share with the other
/// modules of its group: first the bindings at module scope, by the group's
/// authority, then the identifiers that still differ only by their syntax
/// context. A module that did not parse is handed back as it is, and the
/// authority is then left as it was.
///
/// No new name is one that the module declares, at module scope or below
/// it. The second pass gives way to free identifiers, which the authority
/// does not see: a binding whose granted name a free identifier of the module
/// has too is renamed once more. So the names of the free identifiers of the
/// group are to be reserved before its first module is renamed.
pub fn rename_for_merge(renamer: &mut Renamer, module: ParseResult) -> (renamed: ParseResult)
    ensures
        module.is_failure() ==> renamed == module && final(renamer)@ == old(renamer)@,
        module is Parsed ==> exists|
            names: Seq<Seq<u8>>,
            others: Seq<Seq<u8>>,
        | #[trigger]
            merged(old(renamer)@, module, names, others, final(renamer)@, renamed),
        final(renamer)@.wf(),
{
    let first = rename_top_level(renamer, module);
    let renamed = rename_module(first);
    proof {
        if module is Parsed {
            let (names, others) = choose|names: Seq<Seq<u8>>, others: Seq<Seq<u8>>| #[trigger]
                top_level_renamed(old(renamer)@, module, names, others, renamer@, first);
            assert(merged(old(renamer)@, module, names, others, renamer@, renamed));
        }
    }
    renamed
}

} // verus!
