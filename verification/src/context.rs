//! The compilation context: one isolated session.
//!
//! A context owns the executable-memory allocator, the ordered list of
//! modules, and the flat symbol namespace that links them.  Its lifecycle is
//! a one-way state machine: `Active` (all construction, linking and
//! generation) → `Finalizing` (in `finish`, while owned regions are
//! released) → `Finished` (every operation is refused with
//! `UseAfterFinish`).
//!
//! IR construction is append-only.  New items go to the *current* module —
//! the most recently created module not yet finalized — and new instructions
//! to the *open* function: the current module's last item, while that is a
//! function not yet finalized.  Every constraint (operand shape, register
//! and symbol uniqueness) is checked at the call that could break it, never
//! deferred to code generation.

use vstd::prelude::*;

use crate::code_alloc::{is_mapped, CodeAlloc, RegionModel};
use crate::errors::JitError;
use crate::ir::{
    func_wf, insn_wf, item_name_of, module_wf, regs_unique, Func, FuncModel, Insn, InsnModel,
    Item, ItemModel, Module, ModuleModel, Opcode, Operand, OperandModel, Ty, Var, VarModel,
};

verus! {

/// Lifecycle state of a context.
#[derive(Clone, Copy, Debug, PartialEq, Eq, Structural)]
pub enum CtxState {
    /// IR construction, linking and generation are permitted.
    Active,
    /// A shutdown is in progress: owned regions are being released.
    Finalizing,
    /// The session is over; every further operation is `UseAfterFinish`.
    Finished,
}

/// What a name in the flat symbol namespace is bound to.
#[derive(Clone, Copy, Debug, PartialEq, Eq, Structural)]
pub enum SymBinding {
    /// The exported item `item` of module `module`.
    Bound { module: usize, item: usize },
    /// The name was exported more than once: it resolves to nothing, ever.
    Ambiguous,
}

/// One entry of the symbol table.
#[derive(Clone, Debug, PartialEq)]
pub struct SymEntry {
    pub name: String,
    pub binding: SymBinding,
}

/// Mathematical model of a symbol-table entry.
#[verifier::ext_equal]
pub ghost struct SymEntryModel {
    pub name: Seq<char>,
    pub binding: SymBinding,
}

impl View for SymEntry {
    type V = SymEntryModel;

    open spec fn view(&self) -> SymEntryModel {
        SymEntryModel { name: self.name@, binding: self.binding }
    }
}

/// Mathematical model of a whole context.
#[verifier::ext_equal]
pub ghost struct ContextModel {
    pub state: CtxState,
    pub alloc: Seq<Option<RegionModel>>,
    pub modules: Seq<ModuleModel>,
    pub symtab: Seq<SymEntryModel>,
}

/// One compilation session.  See the module documentation.
pub struct Context {
    pub(crate) state: CtxState,
    pub(crate) alloc: CodeAlloc,
    pub(crate) modules: Vec<Module>,
    pub(crate) symtab: Vec<SymEntry>,
}

impl View for Context {
    type V = ContextModel;

    closed spec fn view(&self) -> ContextModel {
        ContextModel {
            state: self.state,
            alloc: self.alloc@,
            modules: self.modules@.map_values(|m: Module| m@),
            symtab: self.symtab@.map_values(|s: SymEntry| s@),
        }
    }
}

/// Index of the current module: the most recently created one not yet
/// finalized, scanning below position `i`.
pub open spec fn cur_module_below(mods: Seq<ModuleModel>, i: int) -> Option<int>
    decreases i,
{
    if i <= 0 {
        None
    } else if 0 <= i - 1 < mods.len() && !mods[i - 1].finalized {
        Some(i - 1)
    } else {
        cur_module_below(mods, i - 1)
    }
}

/// Index of the current module for new-item insertion, if any module is
/// still open.
pub open spec fn cur_module(mods: Seq<ModuleModel>) -> Option<int> {
    cur_module_below(mods, mods.len() as int)
}

/// The open function: the current module's last item, while that is a
/// function not yet finalized.  Returns `(module index, item index)`.
pub open spec fn open_func(c: ContextModel) -> Option<(int, int)> {
    match cur_module(c.modules) {
        None => None,
        Some(m) => {
            let items = c.modules[m].items;
            if items.len() > 0 && (items.last() matches ItemModel::Func(f) && !f.finalized) {
                Some((m, items.len() - 1))
            } else {
                None
            }
        },
    }
}

/// The model of the open function.
pub open spec fn open_func_model(c: ContextModel) -> FuncModel
    recommends
        open_func(c) is Some,
{
    let mi = open_func(c)->Some_0;
    c.modules[mi.0].items[mi.1]->Func_0
}

/// `c` with the function item `i` of module `m` replaced by `f`.
pub open spec fn ctx_with_func(c: ContextModel, m: int, i: int, f: FuncModel) -> ContextModel {
    ctx_with_module(
        c,
        m,
        ModuleModel { items: c.modules[m].items.update(i, ItemModel::Func(f)), ..c.modules[m] },
    )
}

/// Whether some entry of the symbol table carries `name`.
pub open spec fn sym_taken(tab: Seq<SymEntryModel>, name: Seq<char>) -> bool {
    exists|i: int| 0 <= i < tab.len() && (#[trigger] tab[i]).name == name
}

/// No two entries of the symbol table share a name.
pub open spec fn sym_names_unique(tab: Seq<SymEntryModel>) -> bool {
    forall|i: int, j: int| 0 <= i < j < tab.len() ==> tab[i].name != tab[j].name
}

/// The index of the item of `items` named `name` (unique by module
/// well-formedness).
pub open spec fn item_index_of(items: Seq<ItemModel>, name: Seq<char>) -> int {
    choose|i: int| 0 <= i < items.len() && item_name_of(#[trigger] items[i]) == name
}

/// Every entry carrying `name` poisoned to `Ambiguous`: the name resolves
/// to nothing, ever after.
pub open spec fn poison(tab: Seq<SymEntryModel>, name: Seq<char>) -> Seq<SymEntryModel> {
    tab.map_values(
        |e: SymEntryModel|
            if e.name == name {
                SymEntryModel { name: e.name, binding: SymBinding::Ambiguous }
            } else {
                e
            },
    )
}

/// First binding carrying `n` in the symbol table, scanning from the
/// front.
pub open spec fn sym_lookup(tab: Seq<SymEntryModel>, n: Seq<char>) -> Option<SymBinding>
    decreases tab.len(),
{
    if tab.len() == 0 {
        None
    } else if tab.first().name == n {
        Some(tab.first().binding)
    } else {
        sym_lookup(tab.drop_first(), n)
    }
}

/// One linking failure: a call target that resolves to nothing, or to a
/// poisoned (ambiguously exported) name.
#[verifier::ext_equal]
pub ghost enum LinkErr {
    Dup(Seq<char>),
    Missing(Seq<char>),
}

/// Whether the reported error `e` is exactly the link failure `le`.
pub open spec fn err_matches(e: JitError, le: LinkErr) -> bool {
    match le {
        LinkErr::Dup(n) => e matches JitError::DuplicateSymbol(s) && s@ == n,
        LinkErr::Missing(n) => e matches JitError::UnresolvedSymbol(s) && s@ == n,
    }
}

/// The failures one instruction contributes: only a `call` whose symbolic
/// target does not resolve to a bound item.
pub open spec fn insn_link_errs(tab: Seq<SymEntryModel>, insn: InsnModel) -> Seq<LinkErr> {
    if insn.op == Opcode::Call && insn.operands.len() == 2 && insn.operands[1] is Str {
        let n = insn.operands[1]->Str_0;
        match sym_lookup(tab, n) {
            Some(SymBinding::Bound { .. }) => Seq::empty(),
            Some(SymBinding::Ambiguous) => seq![LinkErr::Dup(n)],
            None => seq![LinkErr::Missing(n)],
        }
    } else {
        Seq::empty()
    }
}

/// The failures of a whole body, in program order.
pub open spec fn insns_link_errs(tab: Seq<SymEntryModel>, insns: Seq<InsnModel>) -> Seq<LinkErr>
    decreases insns.len(),
{
    if insns.len() == 0 {
        Seq::empty()
    } else {
        insn_link_errs(tab, insns.first()) + insns_link_errs(tab, insns.drop_first())
    }
}

/// The failures one item contributes: only function bodies make calls.
pub open spec fn item_link_errs(tab: Seq<SymEntryModel>, item: ItemModel) -> Seq<LinkErr> {
    match item {
        ItemModel::Func(f) => insns_link_errs(tab, f.insns),
        _ => Seq::empty(),
    }
}

/// The failures of an item list, in declaration order.
pub open spec fn items_link_errs(tab: Seq<SymEntryModel>, items: Seq<ItemModel>) -> Seq<LinkErr>
    decreases items.len(),
{
    if items.len() == 0 {
        Seq::empty()
    } else {
        item_link_errs(tab, items.first()) + items_link_errs(tab, items.drop_first())
    }
}

/// The failures one module contributes; only loaded modules take part in
/// linking.
pub open spec fn module_link_errs(tab: Seq<SymEntryModel>, m: ModuleModel) -> Seq<LinkErr> {
    if m.loaded {
        items_link_errs(tab, m.items)
    } else {
        Seq::empty()
    }
}

/// The failures of a module list, in creation order.
pub open spec fn modules_link_errs(
    tab: Seq<SymEntryModel>,
    mods: Seq<ModuleModel>,
) -> Seq<LinkErr>
    decreases mods.len(),
{
    if mods.len() == 0 {
        Seq::empty()
    } else {
        module_link_errs(tab, mods.first()) + modules_link_errs(tab, mods.drop_first())
    }
}

/// Every linking failure of the whole context, in order: per loaded
/// module, per item, per instruction.
pub open spec fn ctx_link_errs(c: ContextModel) -> Seq<LinkErr> {
    modules_link_errs(c.symtab, c.modules)
}

/// A function item marked linked; any other item unchanged.
pub open spec fn item_linked(item: ItemModel) -> ItemModel {
    match item {
        ItemModel::Func(f) => ItemModel::Func(FuncModel { linked: true, ..f }),
        _ => item,
    }
}

/// A loaded module with every function marked linked; an unloaded module
/// unchanged.
pub open spec fn module_linked(m: ModuleModel) -> ModuleModel {
    if m.loaded {
        ModuleModel { items: m.items.map_values(|it: ItemModel| item_linked(it)), ..m }
    } else {
        m
    }
}

/// The whole context after a successful link.
pub open spec fn mark_linked(c: ContextModel) -> ContextModel {
    ContextModel { modules: c.modules.map_values(|m: ModuleModel| module_linked(m)), ..c }
}

/// Outcome of registering a module's exports into the symbol table.
#[verifier::ext_equal]
pub ghost enum LoadStep {
    /// All exports registered; the new symbol table.
    Done(Seq<SymEntryModel>),
    /// An export collided with a name already present: the table with the
    /// name poisoned, and the name.
    Dup(Seq<SymEntryModel>, Seq<char>),
    /// An export names no item of the module: the table as far as it got,
    /// and the name.
    Missing(Seq<SymEntryModel>, Seq<char>),
}

/// Registers `exports` of module `m` (with items `items`) into `tab`, in
/// declaration order, stopping at the first collision or missing item.
pub open spec fn register_exports(
    tab: Seq<SymEntryModel>,
    items: Seq<ItemModel>,
    exports: Seq<Seq<char>>,
    m: usize,
) -> LoadStep
    decreases exports.len(),
{
    if exports.len() == 0 {
        LoadStep::Done(tab)
    } else {
        let name = exports.first();
        if sym_taken(tab, name) {
            LoadStep::Dup(poison(tab, name), name)
        } else if item_name_taken(items, name) {
            register_exports(
                tab.push(
                    SymEntryModel {
                        name: name,
                        binding: SymBinding::Bound {
                            module: m,
                            item: item_index_of(items, name) as usize,
                        },
                    },
                ),
                items,
                exports.drop_first(),
                m,
            )
        } else {
            LoadStep::Missing(tab, name)
        }
    }
}

/// The current module, where there is one, is within range and still open.
pub proof fn lemma_cur_module_open(mods: Seq<ModuleModel>, i: int)
    requires
        cur_module_below(mods, i) is Some,
    ensures
        ({
            let m = cur_module_below(mods, i)->Some_0;
            0 <= m < mods.len() && !mods[m].finalized
        }),
    decreases i,
{
    if i <= 0 {
    } else if 0 <= i - 1 < mods.len() && !mods[i - 1].finalized {
    } else {
        lemma_cur_module_open(mods, i - 1);
    }
}

/// Only the last item of a module may be a function still open; everything
/// before it is sealed.
pub open spec fn module_items_sealed(m: ModuleModel) -> bool {
    forall|i: int|
        0 <= i < m.items.len() - 1 ==> (#[trigger] m.items[i] matches ItemModel::Func(f)
            ==> f.finalized)
}


/// Whether some item of `items` already carries `name`.
pub open spec fn item_name_taken(items: Seq<ItemModel>, name: Seq<char>) -> bool {
    exists|i: int| 0 <= i < items.len() && item_name_of(#[trigger] items[i]) == name
}

/// Whether some register of `regs` already carries `name`.
pub open spec fn reg_name_taken(regs: Seq<VarModel>, name: Seq<char>) -> bool {
    exists|i: int| 0 <= i < regs.len() && (#[trigger] regs[i]).name == name
}

/// `c` with module `m` replaced.
pub open spec fn ctx_with_module(c: ContextModel, m: int, module: ModuleModel) -> ContextModel {
    ContextModel { modules: c.modules.update(m, module), ..c }
}

/// The model of a function item as `new_func` creates it: the parameters
/// fill the head of the register table, the body is empty, nothing is
/// sealed or linked yet.
pub open spec fn func_entry(name: Seq<char>, rets: Seq<Ty>, params: Seq<VarModel>) -> FuncModel {
    FuncModel {
        name: name,
        rets: rets,
        nparams: params.len() as int,
        regs: params,
        insns: Seq::empty(),
        finalized: false,
        linked: false,
    }
}

/// A fresh, empty, open module.
pub open spec fn fresh_module(name: Seq<char>) -> ModuleModel {
    ModuleModel {
        name: name,
        items: Seq::empty(),
        exports: Seq::empty(),
        finalized: false,
        loaded: false,
    }
}

/// Validity of everything a context owns: every module is well-formed and
/// only its last item may still be open.
pub open spec fn ctx_wf(c: ContextModel) -> bool {
    &&& forall|m: int| 0 <= m < c.modules.len() ==> module_wf(#[trigger] c.modules[m])
    &&& forall|m: int| 0 <= m < c.modules.len() ==> module_items_sealed(#[trigger] c.modules[m])
}

/// A sealed item (any item but an open function) appended to the current
/// module preserves context validity, provided its name is fresh there.
pub proof fn lemma_wf_after_item_push(pre: ContextModel, m: int, item: ItemModel)
    requires
        ctx_wf(pre),
        cur_module(pre.modules) == Some(m),
        open_func(pre) is None,
        !item_name_taken(pre.modules[m].items, item_name_of(item)),
        item matches ItemModel::Func(f) ==> func_wf(f),
    ensures
        ctx_wf(
            ctx_with_module(
                pre,
                m,
                ModuleModel { items: pre.modules[m].items.push(item), ..pre.modules[m] },
            ),
        ),
{
    lemma_cur_module_open(pre.modules, pre.modules.len() as int);
    let post_mod = ModuleModel { items: pre.modules[m].items.push(item), ..pre.modules[m] };
    let post = ctx_with_module(pre, m, post_mod);
    assert forall|k: int| 0 <= k < post.modules.len() implies module_wf(
        #[trigger] post.modules[k],
    ) && module_items_sealed(post.modules[k]) by {
        if k == m {
            let items = post_mod.items;
            assert forall|a: int, b: int|
                0 <= a < b < items.len() implies item_name_of(#[trigger] items[a]) != item_name_of(
                #[trigger] items[b],
            ) by {
                assert(items[a] == pre.modules[m].items[a]);
                if b == items.len() - 1 {
                    assert(!item_name_taken(pre.modules[m].items, item_name_of(item)));
                } else {
                    assert(items[b] == pre.modules[m].items[b]);
                    assert(module_wf(pre.modules[m]));
                }
            }
            assert forall|i: int|
                0 <= i < items.len() implies (#[trigger] items[i] matches ItemModel::Func(f)
                ==> func_wf(f)) by {
                if i < items.len() - 1 {
                    assert(items[i] == pre.modules[m].items[i]);
                    assert(module_wf(pre.modules[m]));
                }
            }
            assert(!post_mod.finalized);
            assert forall|i: int|
                0 <= i < items.len() - 1 implies (#[trigger] items[i] matches ItemModel::Func(f)
                ==> f.finalized) by {
                assert(items[i] == pre.modules[m].items[i]);
                if i < items.len() - 2 {
                    assert(module_items_sealed(pre.modules[m]));
                } else {
                    assert(open_func(pre) is None);
                }
            }
        } else {
            assert(post.modules[k] == pre.modules[k]);
        }
    }
}

/// Replacing the open function by a well-formed function of the same name
/// preserves context validity.
pub proof fn lemma_wf_after_func_update(pre: ContextModel, m: int, i: int, f2: FuncModel)
    requires
        ctx_wf(pre),
        open_func(pre) == Some((m, i)),
        f2.name == open_func_model(pre).name,
        func_wf(f2),
    ensures
        ctx_wf(ctx_with_func(pre, m, i, f2)),
{
    lemma_cur_module_open(pre.modules, pre.modules.len() as int);
    let post_mod = ModuleModel {
        items: pre.modules[m].items.update(i, ItemModel::Func(f2)),
        ..pre.modules[m]
    };
    let post = ctx_with_func(pre, m, i, f2);
    assert(i == pre.modules[m].items.len() - 1);
    assert forall|k: int| 0 <= k < post.modules.len() implies module_wf(
        #[trigger] post.modules[k],
    ) && module_items_sealed(post.modules[k]) by {
        if k == m {
            let items = post_mod.items;
            assert(item_name_of(items[i]) == item_name_of(pre.modules[m].items[i]));
            assert forall|a: int, b: int|
                0 <= a < b < items.len() implies item_name_of(#[trigger] items[a]) != item_name_of(
                #[trigger] items[b],
            ) by {
                assert(module_wf(pre.modules[m]));
                assert(item_name_of(items[a]) == item_name_of(pre.modules[m].items[a]));
                assert(item_name_of(items[b]) == item_name_of(pre.modules[m].items[b]));
            }
            assert forall|j: int|
                0 <= j < items.len() implies (#[trigger] items[j] matches ItemModel::Func(f)
                ==> func_wf(f)) by {
                if j != i {
                    assert(items[j] == pre.modules[m].items[j]);
                    assert(module_wf(pre.modules[m]));
                }
            }
            assert(!post_mod.finalized);
            assert forall|j: int|
                0 <= j < items.len() - 1 implies (#[trigger] items[j] matches ItemModel::Func(f)
                ==> f.finalized) by {
                assert(items[j] == pre.modules[m].items[j]);
                assert(module_items_sealed(pre.modules[m]));
            }
        } else {
            assert(post.modules[k] == pre.modules[k]);
        }
    }
}

impl Context {
    /// Validity of everything the context owns.
    pub open spec fn wf(&self) -> bool {
        ctx_wf(self@)
    }

    /// Creates a context in the `Active` state, taking ownership of the
    /// allocator that will back all generated code of this session.
    pub fn init(alloc: CodeAlloc) -> (c: Context)
        ensures
            c.wf(),
            c@.state == CtxState::Active,
            c@.alloc == alloc@,
            c@.modules == Seq::<ModuleModel>::empty(),
            c@.symtab == Seq::<SymEntryModel>::empty(),
    {
        let c = Context { state: CtxState::Active, alloc, modules: Vec::new(), symtab: Vec::new() };
        proof {
            assert(c@.modules =~= Seq::<ModuleModel>::empty());
            assert(c@.symtab =~= Seq::<SymEntryModel>::empty());
        }
        c
    }

    /// The lifecycle state of this context.
    pub fn state(&self) -> (s: CtxState)
        ensures
            s == self@.state,
    {
        self.state
    }

    /// How many modules this context owns, in creation order.
    pub fn module_count(&self) -> (n: usize)
        ensures
            n == self@.modules.len(),
    {
        self.modules.len()
    }

    /// The tail of the module list: the most recently created module.
    pub fn module_tail(&self) -> (r: Option<usize>)
        ensures
            match r {
                Some(m) => self@.modules.len() > 0 && m + 1 == self@.modules.len(),
                None => self@.modules.len() == 0,
            },
    {
        if self.modules.len() == 0 {
            None
        } else {
            Some(self.modules.len() - 1)
        }
    }

    /// Appends a fresh, open module, which becomes the current module.
    /// Refused only against a context that is no longer active.
    pub fn new_module(&mut self, name: &str) -> (r: Result<usize, JitError>)
        requires
            old(self).wf(),
        ensures
            final(self).wf(),
            match r {
                Ok(m) => {
                    &&& old(self)@.state == CtxState::Active
                    &&& m == old(self)@.modules.len()
                    &&& final(self)@ == ContextModel {
                        modules: old(self)@.modules.push(fresh_module(name@)),
                        ..old(self)@
                    }
                },
                Err(e) => {
                    &&& e == JitError::UseAfterFinish
                    &&& old(self)@.state != CtxState::Active
                    &&& final(self)@ == old(self)@
                },
            },
    {
        match self.state {
            CtxState::Active => {},
            _ => {
                return Err(JitError::UseAfterFinish);
            },
        }
        let m = self.modules.len();
        self.modules.push(
            Module {
                name: name.to_owned(),
                items: Vec::new(),
                exports: Vec::new(),
                finalized: false,
                loaded: false,
            },
        );
        proof {
            assert(self@ =~~= ContextModel {
                modules: old(self)@.modules.push(fresh_module(name@)),
                ..old(self)@
            });
        }
        Ok(m)
    }

    /// Index of the current module, scanning from the tail for the most
    /// recently created module not yet finalized.
    fn cur_module_idx(&self) -> (r: Option<usize>)
        ensures
            match r {
                Some(m) => m < self@.modules.len() && cur_module(self@.modules) == Some(m as int),
                None => cur_module(self@.modules) is None,
            },
    {
        let mut i: usize = self.modules.len();
        while i > 0
            invariant
                i <= self.modules@.len(),
                cur_module_below(self@.modules, i as int) == cur_module(self@.modules),
            decreases i,
        {
            i = i - 1;
            if !self.modules[i].finalized {
                return Some(i);
            }
        }
        None
    }

    /// Seals the current module's item list.  With no module open the call
    /// reports `AlreadyFinalized`; with its last function still open,
    /// `UnfinishedFunction`; in both cases nothing changes.
    pub fn finish_module(&mut self) -> (r: Result<usize, JitError>)
        requires
            old(self).wf(),
        ensures
            final(self).wf(),
            match r {
                Ok(m) => {
                    &&& old(self)@.state == CtxState::Active
                    &&& cur_module(old(self)@.modules) == Some(m as int)
                    &&& open_func(old(self)@) is None
                    &&& final(self)@ == ContextModel {
                        modules: old(self)@.modules.update(
                            m as int,
                            ModuleModel { finalized: true, ..old(self)@.modules[m as int] },
                        ),
                        ..old(self)@
                    }
                },
                Err(e) => {
                    &&& final(self)@ == old(self)@
                    &&& if old(self)@.state != CtxState::Active {
                        e == JitError::UseAfterFinish
                    } else if cur_module(old(self)@.modules) is None {
                        e == JitError::AlreadyFinalized
                    } else {
                        e == JitError::UnfinishedFunction && open_func(old(self)@) is Some
                    }
                },
            },
    {
        match self.state {
            CtxState::Active => {},
            _ => {
                return Err(JitError::UseAfterFinish);
            },
        }
        let m = match self.cur_module_idx() {
            Some(m) => m,
            None => {
                return Err(JitError::AlreadyFinalized);
            },
        };
        let nitems = self.modules[m].items.len();
        if nitems > 0 {
            let open = match &self.modules[m].items[nitems - 1] {
                Item::Func(f) => !f.finalized,
                _ => false,
            };
            if open {
                return Err(JitError::UnfinishedFunction);
            }
        }
        let module = &mut self.modules[m];
        module.finalized = true;
        proof {
            let pre = old(self)@;
            let post_m = ModuleModel { finalized: true, ..pre.modules[m as int] };
            assert(self@ =~~= ContextModel { modules: pre.modules.update(m as int, post_m), ..pre });
            assert forall|k: int| 0 <= k < self@.modules.len() implies module_wf(
                #[trigger] self@.modules[k],
            ) && module_items_sealed(self@.modules[k]) by {
                if k == m as int {
                    assert(module_wf(pre.modules[k]));
                    assert(module_items_sealed(pre.modules[k]));
                    assert forall|i: int|
                        0 <= i < post_m.items.len() implies (#[trigger] post_m.items[i] matches
                    ItemModel::Func(f) ==> f.finalized) by {
                        if i < post_m.items.len() - 1 {
                            assert(pre.modules[k].items[i] == post_m.items[i]);
                        } else {
                            assert(open_func(pre) is None);
                        }
                    }
                }
            }
        }
        Ok(m)
    }

    /// Whether the current module's last item is a function still open,
    /// together with its indices.
    fn open_func_idx(&self) -> (r: Option<(usize, usize)>)
        ensures
            match r {
                Some(mi) => open_func(self@) == Some((mi.0 as int, mi.1 as int))
                    && mi.0 < self@.modules.len() && mi.1 < self@.modules[mi.0 as int].items.len(),
                None => open_func(self@) is None,
            },
    {
        let m = match self.cur_module_idx() {
            Some(m) => m,
            None => {
                return None;
            },
        };
        let nitems = self.modules[m].items.len();
        if nitems == 0 {
            return None;
        }
        match &self.modules[m].items[nitems - 1] {
            Item::Func(f) => if f.finalized {
                None
            } else {
                Some((m, nitems - 1))
            },
            _ => None,
        }
    }

    /// Whether no two of `params` share a name.
    fn regs_unique_check(params: &Vec<Var>) -> (r: bool)
        ensures
            r == regs_unique(params@.map_values(|v: Var| v@)),
    {
        let ghost pv = params@.map_values(|v: Var| v@);
        let mut i: usize = 0;
        while i < params.len()
            invariant
                i <= params@.len(),
                pv == params@.map_values(|v: Var| v@),
                forall|a: int, b: int|
                    0 <= a < b < params@.len() && a < i ==> pv[a].name != pv[b].name,
            decreases params@.len() - i,
        {
            let mut j: usize = i + 1;
            while j < params.len()
                invariant
                    i < j <= params@.len() || (i + 1 == j && j >= params@.len()),
                    i < params@.len(),
                    pv == params@.map_values(|v: Var| v@),
                    forall|b: int| i < b < j ==> pv[i as int].name != pv[b].name,
                decreases params@.len() - j,
            {
                if params[i].name == params[j].name {
                    proof {
                        assert(pv[i as int].name == pv[j as int].name);
                    }
                    return false;
                }
                j = j + 1;
            }
            i = i + 1;
        }
        true
    }

    /// Whether `wanted` is not yet the name of any item of `items`.
    fn item_name_free(items: &Vec<Item>, wanted: &String) -> (r: bool)
        ensures
            r == !item_name_taken(items@.map_values(|it: Item| it@), wanted@),
    {
        let ghost iv = items@.map_values(|it: Item| it@);
        let mut i: usize = 0;
        while i < items.len()
            invariant
                i <= items@.len(),
                iv == items@.map_values(|it: Item| it@),
                forall|k: int| 0 <= k < i ==> item_name_of(#[trigger] iv[k]) != wanted@,
            decreases items@.len() - i,
        {
            let item_name: &String = match &items[i] {
                Item::Func(f) => &f.name,
                Item::Data { name, .. } => name,
                Item::Forward { name } => name,
            };
            if *item_name == *wanted {
                proof {
                    assert(item_name_of(iv[i as int]) == wanted@);
                }
                return false;
            }
            i = i + 1;
        }
        true
    }

    /// Creates a function item in the current module, with its typed
    /// signature; the parameters fill the head of the register table.  The
    /// new function is open: instructions are appended to it until
    /// `finish_func`.  Returns the item index within the current module.
    pub fn new_func(&mut self, name: &str, rets: Vec<Ty>, params: Vec<Var>) -> (r: Result<
        usize,
        JitError,
    >)
        requires
            old(self).wf(),
        ensures
            final(self).wf(),
            match r {
                Ok(idx) => ({
                    let pre = old(self)@;
                    let m = cur_module(pre.modules)->Some_0;
                    &&& pre.state == CtxState::Active
                    &&& cur_module(pre.modules) is Some
                    &&& open_func(pre) is None
                    &&& regs_unique(params@.map_values(|v: Var| v@))
                    &&& !item_name_taken(pre.modules[m].items, name@)
                    &&& idx == pre.modules[m].items.len()
                    &&& final(self)@ == ctx_with_module(
                        pre,
                        m,
                        ModuleModel {
                            items: pre.modules[m].items.push(
                                ItemModel::Func(
                                    func_entry(name@, rets@, params@.map_values(|v: Var| v@)),
                                ),
                            ),
                            ..pre.modules[m]
                        },
                    )
                }),
                Err(e) => ({
                    let pre = old(self)@;
                    &&& final(self)@ == pre
                    &&& if pre.state != CtxState::Active {
                        e == JitError::UseAfterFinish
                    } else if cur_module(pre.modules) is None {
                        e == JitError::NoOpenModule
                    } else if open_func(pre) is Some {
                        e == JitError::UnfinishedFunction
                    } else {
                        &&& e matches JitError::DuplicateSymbol(_)
                        &&& (!regs_unique(params@.map_values(|v: Var| v@)) || item_name_taken(
                            pre.modules[cur_module(pre.modules)->Some_0].items,
                            name@,
                        ))
                    }
                }),
            },
    {
        match self.state {
            CtxState::Active => {},
            _ => {
                return Err(JitError::UseAfterFinish);
            },
        }
        let m = match self.cur_module_idx() {
            Some(m) => m,
            None => {
                return Err(JitError::NoOpenModule);
            },
        };
        proof {
            lemma_cur_module_open(self@.modules, self@.modules.len() as int);
        }
        let nitems = self.modules[m].items.len();
        if nitems > 0 {
            let open = match &self.modules[m].items[nitems - 1] {
                Item::Func(f) => !f.finalized,
                _ => false,
            };
            if open {
                return Err(JitError::UnfinishedFunction);
            }
        }
        if !Self::regs_unique_check(&params) {
            return Err(JitError::DuplicateSymbol(name.to_owned()));
        }
        let name_s = name.to_owned();
        if !Self::item_name_free(&self.modules[m].items, &name_s) {
            return Err(JitError::DuplicateSymbol(name_s));
        }
        let nparams = params.len();
        let idx = nitems;
        let ghost pre = self@;
        let module = &mut self.modules[m];
        module.items.push(
            Item::Func(
                Func {
                    name: name_s,
                    rets,
                    nparams,
                    regs: params,
                    insns: Vec::new(),
                    finalized: false,
                    linked: false,
                },
            ),
        );
        proof {
            let mi = m as int;
            let newf = func_entry(name@, rets@, params@.map_values(|v: Var| v@));
            let post_mod = ModuleModel {
                items: pre.modules[mi].items.push(ItemModel::Func(newf)),
                ..pre.modules[mi]
            };
            assert(self@ =~~= ctx_with_module(pre, mi, post_mod));
            assert(func_wf(newf));
            assert forall|k: int| 0 <= k < self@.modules.len() implies module_wf(
                #[trigger] self@.modules[k],
            ) && module_items_sealed(self@.modules[k]) by {
                if k == mi {
                    let items = post_mod.items;
                    assert forall|a: int, b: int|
                        0 <= a < b < items.len() implies item_name_of(#[trigger] items[a])
                        != item_name_of(#[trigger] items[b]) by {
                        if b == items.len() - 1 {
                            assert(items[a] == pre.modules[mi].items[a]);
                            assert(!item_name_taken(pre.modules[mi].items, name@));
                        } else {
                            assert(items[a] == pre.modules[mi].items[a]);
                            assert(items[b] == pre.modules[mi].items[b]);
                            assert(module_wf(pre.modules[mi]));
                        }
                    }
                    assert forall|i: int|
                        0 <= i < items.len() implies (#[trigger] items[i] matches ItemModel::Func(
                        f,
                    ) ==> func_wf(f)) by {
                        if i < items.len() - 1 {
                            assert(items[i] == pre.modules[mi].items[i]);
                            assert(module_wf(pre.modules[mi]));
                        }
                    }
                    assert(!post_mod.finalized);
                    assert forall|i: int|
                        0 <= i < items.len() - 1 implies (#[trigger] items[i] matches
                    ItemModel::Func(f) ==> f.finalized) by {
                        if i < items.len() - 2 {
                            assert(items[i] == pre.modules[mi].items[i]);
                            assert(module_items_sealed(pre.modules[mi]));
                        } else {
                            assert(items[i] == pre.modules[mi].items[i]);
                            assert(open_func(pre) is None);
                        }
                    }
                } else {
                    assert(self@.modules[k] == pre.modules[k]);
                }
            }
        }
        Ok(idx)
    }
    /// Declares a local register of the open function; the register joins
    /// the scope after the parameters and starts at zero when the function
    /// runs.  Returns the new register's index.
    pub fn new_func_reg(&mut self, name: &str, ty: Ty) -> (r: Result<usize, JitError>)
        requires
            old(self).wf(),
        ensures
            final(self).wf(),
            match r {
                Ok(idx) => ({
                    let pre = old(self)@;
                    let mi = open_func(pre)->Some_0;
                    let f = open_func_model(pre);
                    &&& pre.state == CtxState::Active
                    &&& open_func(pre) is Some
                    &&& !reg_name_taken(f.regs, name@)
                    &&& idx == f.regs.len()
                    &&& final(self)@ == ctx_with_func(
                        pre,
                        mi.0,
                        mi.1,
                        FuncModel { regs: f.regs.push(VarModel { name: name@, ty }), ..f },
                    )
                }),
                Err(e) => ({
                    let pre = old(self)@;
                    &&& final(self)@ == pre
                    &&& if pre.state != CtxState::Active {
                        e == JitError::UseAfterFinish
                    } else if open_func(pre) is None {
                        e == JitError::NoOpenFunction
                    } else {
                        &&& e matches JitError::DuplicateSymbol(_)
                        &&& reg_name_taken(open_func_model(pre).regs, name@)
                    }
                }),
            },
    {
        match self.state {
            CtxState::Active => {},
            _ => {
                return Err(JitError::UseAfterFinish);
            },
        }
        let (m, i) = match self.open_func_idx() {
            Some(mi) => mi,
            None => {
                return Err(JitError::NoOpenFunction);
            },
        };
        let name_s = name.to_owned();
        let ghost pre = self@;
        let ghost fpre = open_func_model(pre);
        let taken = match &self.modules[m].items[i] {
            Item::Func(f) => {
                let ghost rv = f.regs@.map_values(|v: Var| v@);
                let mut k: usize = 0;
                let mut found = false;
                while k < f.regs.len() && !found
                    invariant
                        k <= f.regs@.len(),
                        rv == f.regs@.map_values(|v: Var| v@),
                        rv == fpre.regs,
                        found ==> k < f.regs@.len() && rv[k as int].name == name_s@,
                        !found ==> forall|j: int| 0 <= j < k ==> (#[trigger] rv[j]).name != name_s@,
                    decreases f.regs@.len() - k + (if found { 0int } else { 1int }),
                {
                    if f.regs[k].name == name_s {
                        found = true;
                    } else {
                        k = k + 1;
                    }
                }
                found
            },
            _ => {
                proof {
                    assert(false);
                }
                false
            },
        };
        if taken {
            return Err(JitError::DuplicateSymbol(name_s));
        }
        let module = &mut self.modules[m];
        match &mut module.items[i] {
            Item::Func(f) => {
                let idx = f.regs.len();
                f.regs.push(Var { name: name_s, ty });
                proof {
                    let f2 = FuncModel { regs: fpre.regs.push(VarModel { name: name@, ty }), ..fpre };
                    assert(self@ =~~= ctx_with_func(pre, m as int, i as int, f2));
                    assert(regs_unique(f2.regs)) by {
                        assert(forall|j: int| 0 <= j < fpre.regs.len() ==> #[trigger] f2.regs[j] == fpre.regs[j]);
                    }
                    assert forall|j: int|
                        0 <= j < f2.insns.len() implies #[trigger] insn_wf(
                        f2.insns[j].op,
                        f2.insns[j].operands,
                        f2.regs.len() as int,
                    ) by {
                        assert(insn_wf(fpre.insns[j].op, fpre.insns[j].operands, fpre.regs.len() as int));
                    }
                    assert(func_wf(f2));
                    lemma_wf_after_func_update(pre, m as int, i as int, f2);
                }
                Ok(idx)
            },
            _ => {
                proof {
                    assert(false);
                }
                Err(JitError::NoOpenFunction)
            },
        }
    }

    /// Looks a register of the open function up by name: its index in the
    /// function's register table, or `None` if no open function declares
    /// that name.
    pub fn reg(&self, name: &str) -> (r: Option<usize>)
        ensures
            match r {
                Some(i) => {
                    &&& open_func(self@) is Some
                    &&& i < open_func_model(self@).regs.len()
                    &&& open_func_model(self@).regs[i as int].name == name@
                },
                None => open_func(self@) is None || !reg_name_taken(
                    open_func_model(self@).regs,
                    name@,
                ),
            },
    {
        let (m, i) = match self.open_func_idx() {
            Some(mi) => mi,
            None => {
                return None;
            },
        };
        let name_s = name.to_owned();
        match &self.modules[m].items[i] {
            Item::Func(f) => {
                proof {
                    assert(self@.modules[m as int].items[i as int] == ItemModel::Func(f@));
                    assert(open_func_model(self@) == f@);
                }
                let ghost rv = f.regs@.map_values(|v: Var| v@);
                let mut k: usize = 0;
                while k < f.regs.len()
                    invariant
                        k <= f.regs@.len(),
                        name_s@ == name@,
                        open_func(self@) is Some,
                        rv == f.regs@.map_values(|v: Var| v@),
                        rv == open_func_model(self@).regs,
                        forall|j: int| 0 <= j < k ==> (#[trigger] rv[j]).name != name_s@,
                    decreases f.regs@.len() - k,
                {
                    if f.regs[k].name == name_s {
                        proof {
                            assert(rv[k as int] == f.regs@[k as int]@);
                            assert(rv[k as int].name == name_s@);
                            assert(name_s@ == name@);
                        }
                        return Some(k);
                    }
                    k = k + 1;
                }
                None
            },
            _ => {
                proof {
                    assert(false);
                }
                None
            },
        }
    }

    /// Appends one instruction to the open function.  The operand list must
    /// match the opcode's declared shape — arity, operand kinds, declared
    /// registers — or the call fails with `MalformedInstruction` and the
    /// function (indeed the whole context) is exactly as before: no partial
    /// append.
    pub fn append_insn(&mut self, op: Opcode, operands: Vec<Operand>) -> (r: Result<(), JitError>)
        requires
            old(self).wf(),
        ensures
            final(self).wf(),
            match r {
                Ok(()) => ({
                    let pre = old(self)@;
                    let mi = open_func(pre)->Some_0;
                    let f = open_func_model(pre);
                    &&& pre.state == CtxState::Active
                    &&& open_func(pre) is Some
                    &&& insn_wf(op, operands@.map_values(|o: Operand| o@), f.regs.len() as int)
                    &&& final(self)@ == ctx_with_func(
                        pre,
                        mi.0,
                        mi.1,
                        FuncModel {
                            insns: f.insns.push(
                                InsnModel {
                                    op,
                                    operands: operands@.map_values(|o: Operand| o@),
                                },
                            ),
                            ..f
                        },
                    )
                }),
                Err(e) => ({
                    let pre = old(self)@;
                    &&& final(self)@ == pre
                    &&& if pre.state != CtxState::Active {
                        e == JitError::UseAfterFinish
                    } else if open_func(pre) is None {
                        e == JitError::NoOpenFunction
                    } else {
                        &&& e == JitError::MalformedInstruction
                        &&& !insn_wf(
                            op,
                            operands@.map_values(|o: Operand| o@),
                            open_func_model(pre).regs.len() as int,
                        )
                    }
                }),
            },
    {
        match self.state {
            CtxState::Active => {},
            _ => {
                return Err(JitError::UseAfterFinish);
            },
        }
        let (m, i) = match self.open_func_idx() {
            Some(mi) => mi,
            None => {
                return Err(JitError::NoOpenFunction);
            },
        };
        let ghost pre = self@;
        let ghost fpre = open_func_model(pre);
        let shape_ok = match &self.modules[m].items[i] {
            Item::Func(f) => crate::ir::insn_shape_ok(op, &operands, f.regs.len()),
            _ => {
                proof {
                    assert(false);
                }
                false
            },
        };
        if !shape_ok {
            return Err(JitError::MalformedInstruction);
        }
        let module = &mut self.modules[m];
        match &mut module.items[i] {
            Item::Func(f) => {
                f.insns.push(Insn { op, operands });
                proof {
                    let newi = InsnModel { op, operands: operands@.map_values(|o: Operand| o@) };
                    let f2 = FuncModel { insns: fpre.insns.push(newi), ..fpre };
                    assert(self@ =~~= ctx_with_func(pre, m as int, i as int, f2));
                    assert forall|j: int|
                        0 <= j < f2.insns.len() implies #[trigger] insn_wf(
                        f2.insns[j].op,
                        f2.insns[j].operands,
                        f2.regs.len() as int,
                    ) by {
                        if j < f2.insns.len() - 1 {
                            assert(f2.insns[j] == fpre.insns[j]);
                            assert(func_wf(fpre));
                        } else {
                            assert(f2.insns[j] == newi);
                        }
                    }
                    assert(func_wf(f2));
                    lemma_wf_after_func_update(pre, m as int, i as int, f2);
                }
                Ok(())
            },
            _ => {
                proof {
                    assert(false);
                }
                Err(JitError::NoOpenFunction)
            },
        }
    }

    /// Seals the open function: a one-way transition, after which no
    /// further instruction may be appended.  The body must end in `ret`.
    /// With no function open — in particular when the function was already
    /// finalized — the call reports `AlreadyFinalized` and changes nothing.
    pub fn finish_func(&mut self) -> (r: Result<(), JitError>)
        requires
            old(self).wf(),
        ensures
            final(self).wf(),
            match r {
                Ok(()) => ({
                    let pre = old(self)@;
                    let mi = open_func(pre)->Some_0;
                    let f = open_func_model(pre);
                    &&& pre.state == CtxState::Active
                    &&& open_func(pre) is Some
                    &&& f.insns.len() > 0 && f.insns.last().op == Opcode::Ret
                    &&& final(self)@ == ctx_with_func(
                        pre,
                        mi.0,
                        mi.1,
                        FuncModel { finalized: true, ..f },
                    )
                }),
                Err(e) => ({
                    let pre = old(self)@;
                    &&& final(self)@ == pre
                    &&& if pre.state != CtxState::Active {
                        e == JitError::UseAfterFinish
                    } else if open_func(pre) is None {
                        e == JitError::AlreadyFinalized
                    } else {
                        &&& e == JitError::MalformedInstruction
                        &&& (open_func_model(pre).insns.len() == 0 || open_func_model(
                            pre,
                        ).insns.last().op != Opcode::Ret)
                    }
                }),
            },
    {
        match self.state {
            CtxState::Active => {},
            _ => {
                return Err(JitError::UseAfterFinish);
            },
        }
        let (m, i) = match self.open_func_idx() {
            Some(mi) => mi,
            None => {
                return Err(JitError::AlreadyFinalized);
            },
        };
        let ghost pre = self@;
        let ghost fpre = open_func_model(pre);
        let sealed_ok = match &self.modules[m].items[i] {
            Item::Func(f) => {
                let n = f.insns.len();
                if n == 0 {
                    false
                } else {
                    match f.insns[n - 1].op {
                        Opcode::Ret => true,
                        _ => false,
                    }
                }
            },
            _ => {
                proof {
                    assert(false);
                }
                false
            },
        };
        if !sealed_ok {
            return Err(JitError::MalformedInstruction);
        }
        let module = &mut self.modules[m];
        match &mut module.items[i] {
            Item::Func(f) => {
                f.finalized = true;
                proof {
                    let f2 = FuncModel { finalized: true, ..fpre };
                    assert(self@ =~~= ctx_with_func(pre, m as int, i as int, f2));
                    assert(fpre.insns.last().op == Opcode::Ret);
                    assert(func_wf(f2));
                    lemma_wf_after_func_update(pre, m as int, i as int, f2);
                }
                Ok(())
            },
            _ => {
                proof {
                    assert(false);
                }
                Err(JitError::AlreadyFinalized)
            },
        }
    }

    /// Marks `name` for export from the current module: only exported
    /// names take part in cross-module resolution at load time.  The name
    /// may be declared before the item it will denote.
    pub fn export(&mut self, name: &str) -> (r: Result<(), JitError>)
        requires
            old(self).wf(),
        ensures
            final(self).wf(),
            match r {
                Ok(()) => ({
                    let pre = old(self)@;
                    let m = cur_module(pre.modules)->Some_0;
                    &&& pre.state == CtxState::Active
                    &&& cur_module(pre.modules) is Some
                    &&& !pre.modules[m].exports.contains(name@)
                    &&& final(self)@ == ctx_with_module(
                        pre,
                        m,
                        ModuleModel {
                            exports: pre.modules[m].exports.push(name@),
                            ..pre.modules[m]
                        },
                    )
                }),
                Err(e) => ({
                    let pre = old(self)@;
                    &&& final(self)@ == pre
                    &&& if pre.state != CtxState::Active {
                        e == JitError::UseAfterFinish
                    } else if cur_module(pre.modules) is None {
                        e == JitError::NoOpenModule
                    } else {
                        &&& e matches JitError::DuplicateSymbol(_)
                        &&& pre.modules[cur_module(pre.modules)->Some_0].exports.contains(name@)
                    }
                }),
            },
    {
        match self.state {
            CtxState::Active => {},
            _ => {
                return Err(JitError::UseAfterFinish);
            },
        }
        let m = match self.cur_module_idx() {
            Some(m) => m,
            None => {
                return Err(JitError::NoOpenModule);
            },
        };
        let name_s = name.to_owned();
        let ghost pre = self@;
        let ghost ev = pre.modules[m as int].exports;
        let mut k: usize = 0;
        let mut found = false;
        while k < self.modules[m].exports.len() && !found
            invariant
                m < self.modules@.len(),
                ev == self@.modules[m as int].exports,
                k <= ev.len(),
                found ==> k < ev.len() && ev[k as int] == name_s@,
                !found ==> forall|j: int| 0 <= j < k ==> #[trigger] ev[j] != name_s@,
            decreases ev.len() - k + (if found { 0int } else { 1int }),
        {
            if self.modules[m].exports[k] == name_s {
                found = true;
            } else {
                k = k + 1;
            }
        }
        if found {
            proof {
                assert(pre.modules[m as int].exports.contains(name@));
            }
            return Err(JitError::DuplicateSymbol(name_s));
        }
        let module = &mut self.modules[m];
        module.exports.push(name_s);
        proof {
            let post_mod = ModuleModel {
                exports: pre.modules[m as int].exports.push(name@),
                ..pre.modules[m as int]
            };
            assert(self@ =~~= ctx_with_module(pre, m as int, post_mod));
            assert(!pre.modules[m as int].exports.contains(name@)) by {
                assert(forall|j: int|
                    0 <= j < pre.modules[m as int].exports.len() ==> #[trigger] pre.modules[m as int].exports[j] != name@);
            }
            assert forall|kk: int| 0 <= kk < self@.modules.len() implies module_wf(
                #[trigger] self@.modules[kk],
            ) && module_items_sealed(self@.modules[kk]) by {
                if kk == m as int {
                    assert(post_mod.items == pre.modules[kk].items);
                    assert(module_wf(pre.modules[kk]));
                    assert(module_items_sealed(pre.modules[kk]));
                } else {
                    assert(self@.modules[kk] == pre.modules[kk]);
                }
            }
        }
        Ok(())
    }

    /// Creates a data-blob item — raw bytes with their alignment — in the
    /// current module.  Returns the item index within the current module.
    pub fn new_data(&mut self, name: &str, align: usize, bytes: Vec<u8>) -> (r: Result<
        usize,
        JitError,
    >)
        requires
            old(self).wf(),
        ensures
            final(self).wf(),
            match r {
                Ok(idx) => ({
                    let pre = old(self)@;
                    let m = cur_module(pre.modules)->Some_0;
                    &&& pre.state == CtxState::Active
                    &&& cur_module(pre.modules) is Some
                    &&& open_func(pre) is None
                    &&& !item_name_taken(pre.modules[m].items, name@)
                    &&& idx == pre.modules[m].items.len()
                    &&& final(self)@ == ctx_with_module(
                        pre,
                        m,
                        ModuleModel {
                            items: pre.modules[m].items.push(
                                ItemModel::Data { name: name@, align: align as int, bytes: bytes@ },
                            ),
                            ..pre.modules[m]
                        },
                    )
                }),
                Err(e) => ({
                    let pre = old(self)@;
                    &&& final(self)@ == pre
                    &&& if pre.state != CtxState::Active {
                        e == JitError::UseAfterFinish
                    } else if cur_module(pre.modules) is None {
                        e == JitError::NoOpenModule
                    } else if open_func(pre) is Some {
                        e == JitError::UnfinishedFunction
                    } else {
                        &&& e matches JitError::DuplicateSymbol(_)
                        &&& item_name_taken(
                            pre.modules[cur_module(pre.modules)->Some_0].items,
                            name@,
                        )
                    }
                }),
            },
    {
        match self.state {
            CtxState::Active => {},
            _ => {
                return Err(JitError::UseAfterFinish);
            },
        }
        let m = match self.cur_module_idx() {
            Some(m) => m,
            None => {
                return Err(JitError::NoOpenModule);
            },
        };
        let nitems = self.modules[m].items.len();
        if nitems > 0 {
            let open = match &self.modules[m].items[nitems - 1] {
                Item::Func(f) => !f.finalized,
                _ => false,
            };
            if open {
                return Err(JitError::UnfinishedFunction);
            }
        }
        let name_s = name.to_owned();
        if !Self::item_name_free(&self.modules[m].items, &name_s) {
            return Err(JitError::DuplicateSymbol(name_s));
        }
        let idx = nitems;
        let ghost pre = self@;
        let module = &mut self.modules[m];
        module.items.push(Item::Data { name: name_s, align, bytes });
        proof {
            let item = ItemModel::Data { name: name@, align: align as int, bytes: bytes@ };
            let post_mod = ModuleModel {
                items: pre.modules[m as int].items.push(item),
                ..pre.modules[m as int]
            };
            assert(self@ =~~= ctx_with_module(pre, m as int, post_mod));
            lemma_wf_after_item_push(pre, m as int, item);
        }
        Ok(idx)
    }

    /// Creates a forward-declared prototype item in the current module: a
    /// name whose definition a later load may bind.  Returns the item
    /// index within the current module.
    pub fn new_forward(&mut self, name: &str) -> (r: Result<usize, JitError>)
        requires
            old(self).wf(),
        ensures
            final(self).wf(),
            match r {
                Ok(idx) => ({
                    let pre = old(self)@;
                    let m = cur_module(pre.modules)->Some_0;
                    &&& pre.state == CtxState::Active
                    &&& cur_module(pre.modules) is Some
                    &&& open_func(pre) is None
                    &&& !item_name_taken(pre.modules[m].items, name@)
                    &&& idx == pre.modules[m].items.len()
                    &&& final(self)@ == ctx_with_module(
                        pre,
                        m,
                        ModuleModel {
                            items: pre.modules[m].items.push(ItemModel::Forward { name: name@ }),
                            ..pre.modules[m]
                        },
                    )
                }),
                Err(e) => ({
                    let pre = old(self)@;
                    &&& final(self)@ == pre
                    &&& if pre.state != CtxState::Active {
                        e == JitError::UseAfterFinish
                    } else if cur_module(pre.modules) is None {
                        e == JitError::NoOpenModule
                    } else if open_func(pre) is Some {
                        e == JitError::UnfinishedFunction
                    } else {
                        &&& e matches JitError::DuplicateSymbol(_)
                        &&& item_name_taken(
                            pre.modules[cur_module(pre.modules)->Some_0].items,
                            name@,
                        )
                    }
                }),
            },
    {
        match self.state {
            CtxState::Active => {},
            _ => {
                return Err(JitError::UseAfterFinish);
            },
        }
        let m = match self.cur_module_idx() {
            Some(m) => m,
            None => {
                return Err(JitError::NoOpenModule);
            },
        };
        let nitems = self.modules[m].items.len();
        if nitems > 0 {
            let open = match &self.modules[m].items[nitems - 1] {
                Item::Func(f) => !f.finalized,
                _ => false,
            };
            if open {
                return Err(JitError::UnfinishedFunction);
            }
        }
        let name_s = name.to_owned();
        if !Self::item_name_free(&self.modules[m].items, &name_s) {
            return Err(JitError::DuplicateSymbol(name_s));
        }
        let idx = nitems;
        let ghost pre = self@;
        let module = &mut self.modules[m];
        module.items.push(Item::Forward { name: name_s });
        proof {
            let item = ItemModel::Forward { name: name@ };
            let post_mod = ModuleModel {
                items: pre.modules[m as int].items.push(item),
                ..pre.modules[m as int]
            };
            assert(self@ =~~= ctx_with_module(pre, m as int, post_mod));
            lemma_wf_after_item_push(pre, m as int, item);
        }
        Ok(idx)
    }
    /// Loads a finalized module: registers its exported names, in
    /// declaration order, into the context's flat symbol namespace.  A name
    /// already present is a fatal `DuplicateSymbol`: it is poisoned so that
    /// it resolves to nothing — neither claimant becomes callable — and the
    /// module is not marked loaded.  An export naming no item of the module
    /// is `UnresolvedSymbol`.
    pub fn load_module(&mut self, m: usize) -> (r: Result<(), JitError>)
        requires
            old(self).wf(),
        ensures
            final(self).wf(),
            ({
                let pre = old(self)@;
                let step = register_exports(
                    pre.symtab,
                    pre.modules[m as int].items,
                    pre.modules[m as int].exports,
                    m,
                );
                match r {
                    Ok(()) => {
                        &&& pre.state == CtxState::Active
                        &&& m < pre.modules.len()
                        &&& pre.modules[m as int].finalized
                        &&& !pre.modules[m as int].loaded
                        &&& step matches LoadStep::Done(t) && final(self)@ == ContextModel {
                            modules: pre.modules.update(
                                m as int,
                                ModuleModel { loaded: true, ..pre.modules[m as int] },
                            ),
                            symtab: t,
                            ..pre
                        }
                    },
                    Err(e) => {
                        if pre.state != CtxState::Active {
                            e == JitError::UseAfterFinish && final(self)@ == pre
                        } else if m >= pre.modules.len() {
                            e == JitError::InvalidHandle && final(self)@ == pre
                        } else if !pre.modules[m as int].finalized {
                            e == JitError::NotFinalized && final(self)@ == pre
                        } else if pre.modules[m as int].loaded {
                            e == JitError::AlreadyLoaded && final(self)@ == pre
                        } else {
                            match step {
                                LoadStep::Done(t) => false,
                                LoadStep::Dup(t, n) => {
                                    &&& e matches JitError::DuplicateSymbol(s) && s@ == n
                                    &&& final(self)@ == ContextModel { symtab: t, ..pre }
                                },
                                LoadStep::Missing(t, n) => {
                                    &&& e matches JitError::UnresolvedSymbol(s) && s@ == n
                                    &&& final(self)@ == ContextModel { symtab: t, ..pre }
                                },
                            }
                        }
                    },
                }
            }),
    {
        match self.state {
            CtxState::Active => {},
            _ => {
                return Err(JitError::UseAfterFinish);
            },
        }
        if m >= self.modules.len() {
            return Err(JitError::InvalidHandle);
        }
        if !self.modules[m].finalized {
            return Err(JitError::NotFinalized);
        }
        if self.modules[m].loaded {
            return Err(JitError::AlreadyLoaded);
        }
        let ghost pre = self@;
        let ghost items = pre.modules[m as int].items;
        let ghost exports = pre.modules[m as int].exports;
        let nexp = self.modules[m].exports.len();
        proof {
            assert(exports.skip(0) =~= exports);
        }
        let mut k: usize = 0;
        while k < nexp
            invariant
                pre == old(self)@,
                ctx_wf(pre),
                pre.state == CtxState::Active,
                m < pre.modules.len(),
                pre.modules[m as int].finalized,
                !pre.modules[m as int].loaded,
                k <= exports.len(),
                m < self.modules@.len(),
                nexp == exports.len(),
                self@.modules == pre.modules,
                self@.state == pre.state,
                self@.alloc == pre.alloc,
                items == pre.modules[m as int].items,
                exports == pre.modules[m as int].exports,
                register_exports(pre.symtab, items, exports, m) == register_exports(
                    self@.symtab,
                    items,
                    exports.skip(k as int),
                    m,
                ),
            decreases nexp - k,
        {
            let name: String = self.modules[m].exports[k].clone();
            proof {
                assert(self@.modules[m as int].exports[k as int] == self.modules@[m as int].exports@[k as int]@);
                assert(name@ == exports[k as int]);
                assert(exports.skip(k as int).first() == exports[k as int]);
            }
            // collision with a name already in the table?
            let ghost tab0 = self@.symtab;
            let mut j: usize = 0;
            let mut found = false;
            while j < self.symtab.len() && !found
                invariant
                    j <= self.symtab@.len(),
                    self@.symtab == tab0,
                    name@ == exports[k as int],
                    !found ==> forall|t: int| 0 <= t < j ==> (#[trigger] tab0[t]).name != name@,
                    found ==> sym_taken(tab0, name@),
                decreases self.symtab@.len() - j + (if found { 0int } else { 1int }),
            {
                if self.symtab[j].name == name {
                    proof {
                        assert(tab0[j as int] == self.symtab@[j as int]@);
                        assert(tab0[j as int].name == name@);
                    }
                    found = true;
                } else {
                    j = j + 1;
                }
            }
            if found {
                // fatal collision: poison the name everywhere, report it
                let mut t: usize = 0;
                while t < self.symtab.len()
                    invariant
                        t <= self.symtab@.len(),
                        name@ == exports[k as int],
                        self@.modules == pre.modules,
                        self@.state == pre.state,
                        self@.alloc == pre.alloc,
                        self@.symtab.len() == tab0.len(),
                        forall|u: int|
                            0 <= u < t ==> self@.symtab[u] == (if tab0[u].name == name@ {
                                SymEntryModel { name: tab0[u].name, binding: SymBinding::Ambiguous }
                            } else {
                                tab0[u]
                            }),
                        forall|u: int| t <= u < tab0.len() ==> self@.symtab[u] == tab0[u],
                    decreases self.symtab@.len() - t,
                {
                    let ghost tab_before = self@.symtab;
                    let hit = self.symtab[t].name == name;
                    proof {
                        assert(tab_before[t as int] == tab0[t as int]);
                        assert(hit == (tab0[t as int].name == name@));
                    }
                    if hit {
                        let entry = &mut self.symtab[t];
                        entry.binding = SymBinding::Ambiguous;
                        proof {
                            assert(self@.symtab[t as int] == SymEntryModel {
                                name: tab0[t as int].name,
                                binding: SymBinding::Ambiguous,
                            });
                            assert(forall|u: int|
                                0 <= u < tab0.len() && u != t ==> self@.symtab[u]
                                    == tab_before[u]);
                        }
                    } else {
                        proof {
                            assert(self@.symtab[t as int] == tab0[t as int]);
                        }
                    }
                    t = t + 1;
                }
                proof {
                    assert(self@.symtab =~~= poison(tab0, name@));
                    assert(register_exports(tab0, items, exports.skip(k as int), m)
                        == LoadStep::Dup(poison(tab0, name@), name@));
                    assert(self@ =~~= ContextModel { symtab: poison(tab0, name@), ..pre });
                    assert(pre == old(self)@);
                    assert(ctx_wf(pre));
                    assert(self@.modules == pre.modules);
                    assert(ctx_wf(self@));
                }
                return Err(JitError::DuplicateSymbol(name));
            }
            // find the item the export names
            let nitems = self.modules[m].items.len();
            let mut i: usize = 0;
            let mut item_found = false;
            while i < nitems && !item_found
                invariant
                    i <= items.len(),
                    nitems == items.len(),
                    m < self.modules@.len(),
                    items == self@.modules[m as int].items,
                    name@ == exports[k as int],
                    item_found ==> i < items.len() && item_name_of(items[i as int]) == name@,
                    !item_found ==> forall|t: int|
                        0 <= t < i ==> item_name_of(#[trigger] items[t]) != name@,
                decreases items.len() - i + (if item_found { 0int } else { 1int }),
            {
                let item_name: &String = match &self.modules[m].items[i] {
                    Item::Func(f) => &f.name,
                    Item::Data { name, .. } => name,
                    Item::Forward { name } => name,
                };
                if *item_name == name {
                    proof {
                        assert(items[i as int] == self.modules@[m as int].items@[i as int]@);
                        assert(item_name_of(items[i as int]) == name@);
                    }
                    item_found = true;
                } else {
                    i = i + 1;
                }
            }
            if !item_found {
                proof {
                    assert(!item_name_taken(items, name@));
                    assert(register_exports(tab0, items, exports.skip(k as int), m)
                        == LoadStep::Missing(tab0, name@));
                    assert(self@ =~~= ContextModel { symtab: tab0, ..pre });
                    assert(pre == old(self)@);
                    assert(ctx_wf(pre));
                    assert(self@.modules == pre.modules);
                    assert(ctx_wf(self@));
                }
                return Err(JitError::UnresolvedSymbol(name));
            }
            proof {
                assert(item_name_taken(items, name@));
                let c = item_index_of(items, name@);
                assert(0 <= c < items.len() && item_name_of(items[c]) == name@);
                assert(module_wf(pre.modules[m as int]));
                assert(c == i as int);
            }
            self.symtab.push(SymEntry { name, binding: SymBinding::Bound { module: m, item: i } });
            proof {
                assert(self@.symtab =~~= tab0.push(
                    SymEntryModel {
                        name: exports[k as int],
                        binding: SymBinding::Bound {
                            module: m,
                            item: item_index_of(items, exports[k as int]) as usize,
                        },
                    },
                ));
                assert(exports.skip(k as int).drop_first() =~= exports.skip(k as int + 1));
            }
            k = k + 1;
        }
        proof {
            assert(exports.skip(k as int) =~= Seq::<Seq<char>>::empty());
            assert(register_exports(pre.symtab, items, exports, m) == LoadStep::Done(self@.symtab));
        }
        let ghost tab_done = self@.symtab;
        let module = &mut self.modules[m];
        module.loaded = true;
        proof {
            assert(self@ =~~= ContextModel {
                modules: pre.modules.update(
                    m as int,
                    ModuleModel { loaded: true, ..pre.modules[m as int] },
                ),
                symtab: tab_done,
                ..pre
            });
            assert forall|kk: int| 0 <= kk < self@.modules.len() implies module_wf(
                #[trigger] self@.modules[kk],
            ) && module_items_sealed(self@.modules[kk]) by {
                if kk == m as int {
                    assert(self@.modules[kk].items == pre.modules[kk].items);
                    assert(module_wf(pre.modules[kk]));
                    assert(module_items_sealed(pre.modules[kk]));
                } else {
                    assert(self@.modules[kk] == pre.modules[kk]);
                }
            }
        }
        Ok(())
    }
    /// First binding carrying `name`, scanning the table from the front.
    fn lookup_sym(tab: &Vec<SymEntry>, name: &String) -> (r: Option<SymBinding>)
        ensures
            r == sym_lookup(tab@.map_values(|e: SymEntry| e@), name@),
    {
        let ghost tabv = tab@.map_values(|e: SymEntry| e@);
        proof {
            assert(tabv.skip(0) =~= tabv);
        }
        let mut j: usize = 0;
        while j < tab.len()
            invariant
                j <= tab@.len(),
                tabv == tab@.map_values(|e: SymEntry| e@),
                sym_lookup(tabv, name@) == sym_lookup(tabv.skip(j as int), name@),
            decreases tab@.len() - j,
        {
            proof {
                assert(tabv.skip(j as int).first() == tabv[j as int]);
                assert(tabv.skip(j as int).drop_first() =~= tabv.skip(j as int + 1));
            }
            if tab[j].name == *name {
                proof {
                    assert(tabv[j as int].name == name@);
                }
                return Some(tab[j].binding);
            }
            j = j + 1;
        }
        proof {
            assert(tabv.skip(tab@.len() as int) =~= Seq::<SymEntryModel>::empty());
        }
        None
    }

    /// Resolves every symbolic reference of every loaded module: each
    /// `call` target must be bound in the flat namespace.  On success every
    /// function of every loaded module is marked linked.  On failure
    /// nothing changes and all failures are reported as a batch, in program
    /// order: `UnresolvedSymbol` for a name bound nowhere, and
    /// `DuplicateSymbol` for a name poisoned by colliding exports.
    #[verifier::loop_isolation(false)]
    #[verifier::rlimit(60)]
    pub fn link(&mut self) -> (r: Result<(), Vec<JitError>>)
        requires
            old(self).wf(),
        ensures
            final(self).wf(),
            match r {
                Ok(()) => {
                    &&& old(self)@.state == CtxState::Active
                    &&& ctx_link_errs(old(self)@).len() == 0
                    &&& final(self)@ == mark_linked(old(self)@)
                },
                Err(errs) => {
                    &&& final(self)@ == old(self)@
                    &&& if old(self)@.state != CtxState::Active {
                        errs@.len() == 1 && errs@[0] == JitError::UseAfterFinish
                    } else {
                        &&& ctx_link_errs(old(self)@).len() > 0
                        &&& errs@.len() == ctx_link_errs(old(self)@).len()
                        &&& forall|t: int|
                            0 <= t < errs@.len() ==> err_matches(
                                #[trigger] errs@[t],
                                ctx_link_errs(old(self)@)[t],
                            )
                    }
                },
            },
    {
        match self.state {
            CtxState::Active => {},
            _ => {
                let mut errs: Vec<JitError> = Vec::new();
                errs.push(JitError::UseAfterFinish);
                return Err(errs);
            },
        }
        let ghost tabv = self@.symtab;
        let ghost total = ctx_link_errs(self@);
        let nmods = self.modules.len();
        let mut errs: Vec<JitError> = Vec::new();
        let ghost mut acc: Seq<LinkErr> = Seq::empty();
        proof {
            assert(self@.modules.skip(0) =~= self@.modules);
            assert(acc + modules_link_errs(tabv, self@.modules) =~~= total);
        }
        let mut mi: usize = 0;
        while mi < nmods
            invariant
                mi <= nmods,
                errs@.len() == acc.len(),
                forall|t: int| 0 <= t < acc.len() ==> err_matches(#[trigger] errs@[t], acc[t]),
                acc + modules_link_errs(tabv, self@.modules.skip(mi as int)) == total,
            decreases nmods - mi,
        {
            proof {
                assert(self@.modules.skip(mi as int).first() == self@.modules[mi as int]);
                assert(self@.modules.skip(mi as int).drop_first() =~= self@.modules.skip(
                    mi as int + 1,
                ));
            }
            let ghost mod_errs = module_link_errs(tabv, self@.modules[mi as int]);
            if self.modules[mi].loaded {
                let nitems = self.modules[mi].items.len();
                let ghost items = self@.modules[mi as int].items;
                proof {
                    assert(items.skip(0) =~= items);
                    assert(mod_errs == items_link_errs(tabv, items));
                    assert((acc + items_link_errs(tabv, items.skip(0))) + modules_link_errs(
                        tabv,
                        self@.modules.skip(mi as int + 1),
                    ) =~~= total);
                }
                let mut ii: usize = 0;
                while ii < nitems
                    invariant
                        ii <= nitems,
                        errs@.len() == acc.len(),
                        forall|t: int|
                            0 <= t < acc.len() ==> err_matches(#[trigger] errs@[t], acc[t]),
                        (acc + items_link_errs(tabv, items.skip(ii as int)))
                            + modules_link_errs(tabv, self@.modules.skip(mi as int + 1)) == total,
                    decreases nitems - ii,
                {
                    proof {
                        assert(items.skip(ii as int).first() == items[ii as int]);
                        assert(items.skip(ii as int).drop_first() =~= items.skip(ii as int + 1));
                    }
                    let ghost it_errs = item_link_errs(tabv, items[ii as int]);
                    match &self.modules[mi].items[ii] {
                        Item::Func(f) => {
                            proof {
                                assert(items[ii as int] == ItemModel::Func(f@));
                                assert(func_wf(f@));
                            }
                            let ghost insv = f@.insns;
                            let nins = f.insns.len();
                            proof {
                                assert(insv.skip(0) =~= insv);
                                assert(it_errs == insns_link_errs(tabv, insv));
                                assert(((acc + insns_link_errs(tabv, insv.skip(0)))
                                    + items_link_errs(tabv, items.skip(ii as int + 1)))
                                    + modules_link_errs(
                                    tabv,
                                    self@.modules.skip(mi as int + 1),
                                ) =~~= total);
                            }
                            let mut j: usize = 0;
                            while j < nins
                                invariant
                                    j <= nins,
                                    errs@.len() == acc.len(),
                                    forall|t: int|
                                        0 <= t < acc.len() ==> err_matches(
                                            #[trigger] errs@[t],
                                            acc[t],
                                        ),
                                    ((acc + insns_link_errs(tabv, insv.skip(j as int)))
                                        + items_link_errs(tabv, items.skip(ii as int + 1)))
                                        + modules_link_errs(
                                        tabv,
                                        self@.modules.skip(mi as int + 1),
                                    ) == total,
                                decreases nins - j,
                            {
                                proof {
                                    assert(insv.skip(j as int).first() == insv[j as int]);
                                    assert(insv.skip(j as int).drop_first() =~= insv.skip(
                                        j as int + 1,
                                    ));
                                }
                                let ghost le = insn_link_errs(tabv, insv[j as int]);
                                let ghost acc0 = acc;
                                let insn = &f.insns[j];
                                proof {
                                    assert(insv[j as int] == insn@);
                                    assert(insn_wf(insn@.op, insn@.operands, f@.regs.len() as int));
                                }
                                match insn.op {
                                    Opcode::Call => {
                                        match &insn.operands[1] {
                                            Operand::Str(n) => {
                                                proof {
                                                    assert(insn@.operands[1] == OperandModel::Str(
                                                        n@,
                                                    ));
                                                }
                                                match Self::lookup_sym(&self.symtab, n) {
                                                    Some(SymBinding::Bound { .. }) => {
                                                        proof {
                                                            assert(le =~= Seq::<LinkErr>::empty());
                                                        }
                                                    },
                                                    Some(SymBinding::Ambiguous) => {
                                                        errs.push(
                                                            JitError::DuplicateSymbol(n.clone()),
                                                        );
                                                        proof {
                                                            acc = acc.push(LinkErr::Dup(n@));
                                                            assert(le =~~= seq![LinkErr::Dup(n@)]);
                                                        }
                                                    },
                                                    None => {
                                                        errs.push(
                                                            JitError::UnresolvedSymbol(n.clone()),
                                                        );
                                                        proof {
                                                            acc = acc.push(LinkErr::Missing(n@));
                                                            assert(le =~~= seq![
                                                                LinkErr::Missing(n@),
                                                            ]);
                                                        }
                                                    },
                                                }
                                            },
                                            _ => {
                                                proof {
                                                    assert(false);
                                                }
                                            },
                                        }
                                    },
                                    _ => {
                                        proof {
                                            assert(le =~= Seq::<LinkErr>::empty());
                                        }
                                    },
                                }
                                proof {
                                    assert(acc0 + le =~~= acc);
                                    assert(insns_link_errs(tabv, insv.skip(j as int)) == le
                                        + insns_link_errs(tabv, insv.skip(j as int + 1)));
                                    assert(((acc + insns_link_errs(tabv, insv.skip(j as int + 1)))
                                        + items_link_errs(tabv, items.skip(ii as int + 1)))
                                        + modules_link_errs(
                                        tabv,
                                        self@.modules.skip(mi as int + 1),
                                    ) =~~= total);
                                }
                                j = j + 1;
                            }
                            proof {
                                assert(insv.skip(nins as int) =~= Seq::<InsnModel>::empty());
                                assert(insns_link_errs(tabv, insv.skip(nins as int)) =~= Seq::<
                                    LinkErr,
                                >::empty());
                                assert(((acc + items_link_errs(tabv, items.skip(ii as int + 1)))
                                    + modules_link_errs(
                                    tabv,
                                    self@.modules.skip(mi as int + 1),
                                )) =~~= total);
                            }
                        },
                        _ => {
                            proof {
                                assert(it_errs =~= Seq::<LinkErr>::empty());
                                assert(((acc + items_link_errs(tabv, items.skip(ii as int + 1)))
                                    + modules_link_errs(
                                    tabv,
                                    self@.modules.skip(mi as int + 1),
                                )) =~~= total);
                            }
                        },
                    }
                    ii = ii + 1;
                }
                proof {
                    assert(items.skip(nitems as int) =~= Seq::<ItemModel>::empty());
                    assert(acc + modules_link_errs(tabv, self@.modules.skip(mi as int + 1))
                        =~~= total);
                }
            } else {
                proof {
                    assert(mod_errs =~= Seq::<LinkErr>::empty());
                    assert(acc + modules_link_errs(tabv, self@.modules.skip(mi as int + 1))
                        =~~= total);
                }
            }
            mi = mi + 1;
        }
        proof {
            assert(self@.modules.skip(nmods as int) =~= Seq::<ModuleModel>::empty());
            assert(acc =~~= total);
        }
        if errs.len() > 0 {
            return Err(errs);
        }
        // every reference resolved: mark every function of every loaded
        // module linked
        let ghost pre = self@;
        let mut mi: usize = 0;
        while mi < nmods
            invariant
                mi <= nmods,
                nmods == self@.modules.len(),
                self@.modules.len() == pre.modules.len(),
                self@.state == pre.state,
                self@.alloc == pre.alloc,
                self@.symtab == pre.symtab,
                forall|u: int|
                    0 <= u < mi ==> self@.modules[u] == module_linked(#[trigger] pre.modules[u]),
                forall|u: int| mi <= u < nmods ==> self@.modules[u] == #[trigger] pre.modules[u],
            decreases nmods - mi,
        {
            if self.modules[mi].loaded {
                let nitems = self.modules[mi].items.len();
                let mut ii: usize = 0;
                while ii < nitems
                    invariant
                        ii <= nitems,
                        mi < nmods,
                        nmods == self@.modules.len(),
                        self@.modules.len() == pre.modules.len(),
                        nitems == pre.modules[mi as int].items.len(),
                        self@.state == pre.state,
                        self@.alloc == pre.alloc,
                        self@.symtab == pre.symtab,
                        pre.modules[mi as int].loaded,
                        forall|u: int|
                            0 <= u < mi ==> self@.modules[u] == module_linked(
                                #[trigger] pre.modules[u],
                            ),
                        forall|u: int|
                            mi < u < nmods ==> self@.modules[u] == #[trigger] pre.modules[u],
                        self@.modules[mi as int].name == pre.modules[mi as int].name,
                        self@.modules[mi as int].exports == pre.modules[mi as int].exports,
                        self@.modules[mi as int].finalized == pre.modules[mi as int].finalized,
                        self@.modules[mi as int].loaded,
                        self@.modules[mi as int].items.len() == nitems,
                        forall|u: int|
                            0 <= u < ii ==> self@.modules[mi as int].items[u] == item_linked(
                                #[trigger] pre.modules[mi as int].items[u],
                            ),
                        forall|u: int|
                            ii <= u < nitems ==> self@.modules[mi as int].items[u]
                                == #[trigger] pre.modules[mi as int].items[u],
                    decreases nitems - ii,
                {
                    let module = &mut self.modules[mi];
                    match &mut module.items[ii] {
                        Item::Func(f) => {
                            f.linked = true;
                        },
                        _ => {},
                    }
                    ii = ii + 1;
                }
                proof {
                    assert(self@.modules[mi as int] =~~= module_linked(pre.modules[mi as int]));
                }
            } else {
                proof {
                    assert(self@.modules[mi as int] =~~= module_linked(pre.modules[mi as int]));
                }
            }
            mi = mi + 1;
        }
        proof {
            assert(self@ =~~= mark_linked(pre));
            assert forall|k: int| 0 <= k < self@.modules.len() implies module_wf(
                #[trigger] self@.modules[k],
            ) && module_items_sealed(self@.modules[k]) by {
                let m0 = pre.modules[k];
                let m1 = self@.modules[k];
                assert(module_wf(m0));
                assert(module_items_sealed(m0));
                assert(m1 == module_linked(m0));
                assert(m1.items.len() == m0.items.len());
                assert forall|a: int, b: int|
                    0 <= a < b < m1.items.len() implies item_name_of(#[trigger] m1.items[a])
                    != item_name_of(#[trigger] m1.items[b]) by {
                    assert(item_name_of(m1.items[a]) == item_name_of(m0.items[a]));
                    assert(item_name_of(m1.items[b]) == item_name_of(m0.items[b]));
                }
                assert forall|i: int|
                    0 <= i < m1.items.len() implies (#[trigger] m1.items[i] matches
                ItemModel::Func(f) ==> func_wf(f)) by {
                    if m0.items[i] is Func {
                        assert(func_wf(m0.items[i]->Func_0));
                    }
                }
                assert forall|i: int|
                    0 <= i < m1.items.len() implies (m1.finalized ==> (#[trigger] m1.items[i]
                    matches ItemModel::Func(f) ==> f.finalized)) by {
                    if m0.items[i] is Func {
                    }
                }
                assert forall|i: int|
                    0 <= i < m1.items.len() - 1 implies (#[trigger] m1.items[i] matches
                ItemModel::Func(f) ==> f.finalized) by {
                    if m0.items[i] is Func {
                    }
                }
            }
        }
        Ok(())
    }
    /// The allocator owned by this context, for the code generator.
    /// Everything else about the context is untouched by whatever the
    /// borrower does.
    pub(crate) fn alloc_mut(&mut self) -> (r: &mut CodeAlloc)
        ensures
            (*r)@ == old(self)@.alloc,
            final(self)@ == (ContextModel { alloc: final(r)@, ..old(self)@ }),
    {
        &mut self.alloc
    }

    /// Read access to the allocator, for the invoker.
    pub(crate) fn alloc_ref(&self) -> (r: &CodeAlloc)
        ensures
            r@ == self@.alloc,
    {
        &self.alloc
    }

    /// The function item `i` of module `m`, if those indices name one.
    pub fn func_at(&self, m: usize, i: usize) -> (r: Option<&Func>)
        ensures
            match r {
                Some(f) => {
                    &&& m < self@.modules.len()
                    &&& i < self@.modules[m as int].items.len()
                    &&& self@.modules[m as int].items[i as int] == ItemModel::Func(f@)
                },
                None => m >= self@.modules.len() || i >= self@.modules[m as int].items.len()
                    || !(self@.modules[m as int].items[i as int] is Func),
            },
    {
        if m >= self.modules.len() {
            return None;
        }
        if i >= self.modules[m].items.len() {
            return None;
        }
        match &self.modules[m].items[i] {
            Item::Func(f) => {
                proof {
                    assert(self@.modules[m as int].items[i as int] == ItemModel::Func(f@));
                }
                Some(f)
            },
            _ => None,
        }
    }

    /// Finds the function item named `name` in module `m`.
    pub fn find_func(&self, m: usize, name: &str) -> (r: Option<usize>)
        ensures
            match r {
                Some(i) => {
                    &&& m < self@.modules.len()
                    &&& i < self@.modules[m as int].items.len()
                    &&& self@.modules[m as int].items[i as int] matches ItemModel::Func(f)
                        && f.name == name@
                },
                None => m >= self@.modules.len() || forall|i: int|
                    0 <= i < self@.modules[m as int].items.len() ==> !(
                    #[trigger] self@.modules[m as int].items[i] matches ItemModel::Func(f)
                        && f.name == name@),
            },
    {
        if m >= self.modules.len() {
            return None;
        }
        let name_s = name.to_owned();
        let ghost items = self@.modules[m as int].items;
        let n = self.modules[m].items.len();
        let mut i: usize = 0;
        while i < n
            invariant
                i <= n,
                m < self.modules@.len(),
                n == items.len(),
                name_s@ == name@,
                items == self@.modules[m as int].items,
                forall|t: int|
                    0 <= t < i ==> !(#[trigger] items[t] matches ItemModel::Func(f) && f.name
                        == name@),
            decreases n - i,
        {
            match &self.modules[m].items[i] {
                Item::Func(f) => {
                    if f.name == name_s {
                        proof {
                            assert(items[i as int] == ItemModel::Func(f@));
                            assert(f@.name == name@);
                        }
                        return Some(i);
                    }
                    proof {
                        assert(items[i as int] == ItemModel::Func(f@));
                    }
                },
                _ => {
                    proof {
                        assert(!(items[i as int] is Func));
                    }
                },
            }
            i = i + 1;
        }
        None
    }

    /// Shuts the session down: every owned region is released and all IR
    /// is dropped, through the transient `Finalizing` state into
    /// `Finished`.  A second `finish` — or any later operation — is
    /// `UseAfterFinish`.
    pub fn finish(&mut self) -> (r: Result<(), JitError>)
        requires
            old(self).wf(),
        ensures
            final(self).wf(),
            match r {
                Ok(()) => {
                    &&& old(self)@.state != CtxState::Finished
                    &&& final(self)@.state == CtxState::Finished
                    &&& forall|id: int| !is_mapped(final(self)@.alloc, id)
                    &&& final(self)@.modules == Seq::<ModuleModel>::empty()
                    &&& final(self)@.symtab == Seq::<SymEntryModel>::empty()
                },
                Err(e) => {
                    &&& e == JitError::UseAfterFinish
                    &&& old(self)@.state == CtxState::Finished
                    &&& final(self)@ == old(self)@
                },
            },
    {
        match self.state {
            CtxState::Finished => {
                return Err(JitError::UseAfterFinish);
            },
            _ => {},
        }
        self.state = CtxState::Finalizing;
        self.alloc.unmap_all();
        self.modules = Vec::new();
        self.symtab = Vec::new();
        self.state = CtxState::Finished;
        proof {
            assert(self@.modules =~= Seq::<ModuleModel>::empty());
            assert(self@.symtab =~= Seq::<SymEntryModel>::empty());
        }
        Ok(())
    }
}

/// A successful load leaves every export of the module present in the
/// symbol table.
pub proof fn lemma_done_registers_exports(
    tab: Seq<SymEntryModel>,
    items: Seq<ItemModel>,
    exports: Seq<Seq<char>>,
    m: usize,
    n: Seq<char>,
)
    requires
        register_exports(tab, items, exports, m) is Done,
        exports.contains(n),
    ensures
        sym_taken(register_exports(tab, items, exports, m)->Done_0, n),
    decreases exports.len(),
{
    let name = exports.first();
    let tab2 = tab.push(
        SymEntryModel {
            name: name,
            binding: SymBinding::Bound { module: m, item: item_index_of(items, name) as usize },
        },
    );
    if n == name {
        lemma_done_preserves_taken(tab2, items, exports.drop_first(), m, n);
        assert(sym_taken(tab2, n)) by {
            assert(tab2[tab2.len() - 1].name == n);
        }
    } else {
        assert(exports.drop_first().contains(n)) by {
            let w = choose|w: int| 0 <= w < exports.len() && exports[w] == n;
            assert(exports.drop_first()[w - 1] == n);
        }
        lemma_done_registers_exports(tab2, items, exports.drop_first(), m, n);
    }
}

/// Registration never removes a name that is already present.
pub proof fn lemma_done_preserves_taken(
    tab: Seq<SymEntryModel>,
    items: Seq<ItemModel>,
    exports: Seq<Seq<char>>,
    m: usize,
    n: Seq<char>,
)
    requires
        register_exports(tab, items, exports, m) is Done,
        sym_taken(tab, n),
    ensures
        sym_taken(register_exports(tab, items, exports, m)->Done_0, n),
    decreases exports.len(),
{
    if exports.len() == 0 {
    } else {
        let name = exports.first();
        let tab2 = tab.push(
            SymEntryModel {
                name: name,
                binding: SymBinding::Bound {
                    module: m,
                    item: item_index_of(items, name) as usize,
                },
            },
        );
        assert(sym_taken(tab2, n)) by {
            let w = choose|w: int| 0 <= w < tab.len() && tab[w].name == n;
            assert(tab2[w].name == n);
        }
        lemma_done_preserves_taken(tab2, items, exports.drop_first(), m, n);
    }
}

/// Loading a second module that exports a name some earlier load already
/// registered can never succeed: the very definition of a flat namespace
/// with no precedence rules.
pub proof fn lemma_second_export_never_loads(
    tab: Seq<SymEntryModel>,
    items: Seq<ItemModel>,
    exports: Seq<Seq<char>>,
    m: usize,
    n: Seq<char>,
)
    requires
        sym_taken(tab, n),
        exports.contains(n),
    ensures
        !(register_exports(tab, items, exports, m) is Done),
    decreases exports.len(),
{
    if exports.len() == 0 {
        assert(exists|w: int| 0 <= w < exports.len() && exports[w] == n);
        assert(false);
    } else {
        let name = exports.first();
        if sym_taken(tab, name) {
        } else if item_name_taken(items, name) {
            assert(n != name);
            assert(exports.drop_first().contains(n)) by {
                let w = choose|w: int| 0 <= w < exports.len() && exports[w] == n;
                assert(exports.drop_first()[w - 1] == n);
            }
            let tab2 = tab.push(
                SymEntryModel {
                    name: name,
                    binding: SymBinding::Bound {
                        module: m,
                        item: item_index_of(items, name) as usize,
                    },
                },
            );
            assert(sym_taken(tab2, n)) by {
                let w = choose|w: int| 0 <= w < tab.len() && tab[w].name == n;
                assert(tab2[w].name == n);
            }
            lemma_second_export_never_loads(tab2, items, exports.drop_first(), m, n);
        } else {
        }
    }
}

/// After a collision, the colliding name is poisoned: every entry carrying
/// it is `Ambiguous`, so it resolves to nothing — neither claimant is
/// callable.
pub proof fn lemma_dup_poisons(
    tab: Seq<SymEntryModel>,
    items: Seq<ItemModel>,
    exports: Seq<Seq<char>>,
    m: usize,
)
    requires
        register_exports(tab, items, exports, m) is Dup,
    ensures
        ({
            let t = register_exports(tab, items, exports, m)->Dup_0;
            let d = register_exports(tab, items, exports, m)->Dup_1;
            forall|i: int|
                0 <= i < t.len() && (#[trigger] t[i]).name == d ==> t[i].binding
                    == SymBinding::Ambiguous
        }),
    decreases exports.len(),
{
    let name = exports.first();
    if sym_taken(tab, name) {
        let t = poison(tab, name);
        assert forall|i: int|
            0 <= i < t.len() && (#[trigger] t[i]).name == name implies t[i].binding
            == SymBinding::Ambiguous by {
            if tab[i].name == name {
            } else {
                assert(t[i] == tab[i]);
            }
        }
    } else if item_name_taken(items, name) {
        let tab2 = tab.push(
            SymEntryModel {
                name: name,
                binding: SymBinding::Bound {
                    module: m,
                    item: item_index_of(items, name) as usize,
                },
            },
        );
        lemma_dup_poisons(tab2, items, exports.drop_first(), m);
    }
}

/// A name whose every entry is poisoned resolves to nothing bound.
pub proof fn lemma_poisoned_never_resolves(tab: Seq<SymEntryModel>, n: Seq<char>)
    requires
        forall|i: int|
            0 <= i < tab.len() && (#[trigger] tab[i]).name == n ==> tab[i].binding
                == SymBinding::Ambiguous,
    ensures
        !(sym_lookup(tab, n) matches Some(b) && b is Bound),
    decreases tab.len(),
{
    if tab.len() == 0 {
    } else if tab.first().name == n {
        assert(tab[0].binding == SymBinding::Ambiguous);
    } else {
        assert(forall|i: int|
            0 <= i < tab.drop_first().len() && (#[trigger] tab.drop_first()[i]).name == n
                ==> tab.drop_first()[i].binding == SymBinding::Ambiguous) by {
            assert(forall|i: int|
                0 <= i < tab.drop_first().len() ==> tab.drop_first()[i] == tab[i + 1]);
        }
        lemma_poisoned_never_resolves(tab.drop_first(), n);
    }
}

/// Two modules exported under one name, loaded into one context: the
/// second load always reports `DuplicateSymbol`, and afterwards the name
/// resolves to nothing bound — neither function is callable through the
/// namespace, and a `call` naming it can never link.
pub proof fn lemma_duplicate_symbol_uncallable(
    tab: Seq<SymEntryModel>,
    items1: Seq<ItemModel>,
    exports1: Seq<Seq<char>>,
    m1: usize,
    items2: Seq<ItemModel>,
    exports2: Seq<Seq<char>>,
    m2: usize,
    n: Seq<char>,
)
    requires
        register_exports(tab, items1, exports1, m1) is Done,
        exports1.contains(n),
        exports2.contains(n),
    ensures
        ({
            let t1 = register_exports(tab, items1, exports1, m1)->Done_0;
            let step2 = register_exports(t1, items2, exports2, m2);
            &&& !(step2 is Done)
            &&& (step2 is Dup && step2->Dup_1 == n ==> !(sym_lookup(step2->Dup_0, n) matches Some(
                b,
            ) && b is Bound))
        }),
{
    let t1 = register_exports(tab, items1, exports1, m1)->Done_0;
    lemma_done_registers_exports(tab, items1, exports1, m1, n);
    lemma_second_export_never_loads(t1, items2, exports2, m2, n);
    if register_exports(t1, items2, exports2, m2) is Dup {
        lemma_dup_poisons(t1, items2, exports2, m2);
        let step = register_exports(t1, items2, exports2, m2);
        if step->Dup_1 == n {
            lemma_poisoned_never_resolves(step->Dup_0, n);
        }
    }
}

} // verus!