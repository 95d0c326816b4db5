use vstd::prelude::*;

verus! {

/// A resolved reference to a storage slot in a function's local frame.
/// Two slots are equal exactly when their indices are equal; an index is
/// meaningful only relative to the function whose table assigned it.
#[derive(Debug, Clone, Copy, PartialEq, Eq, Structural)]
pub struct Ident {
    pub index: usize,
}

/// An arithmetic expression: a strict tree over slot references, integer
/// literals and four binary operators, each owning its two operands.
#[derive(Debug)]
pub enum Expr {
    Ident(Ident),
    Int(u32),
    Add(Box<Expr>, Box<Expr>),
    Sub(Box<Expr>, Box<Expr>),
    Mul(Box<Expr>, Box<Expr>),
    Div(Box<Expr>, Box<Expr>),
}

/// The mathematical image of an expression: slot indices as unbounded
/// integers.
pub enum ExprV {
    Ident(int),
    Int(u32),
    Add(Box<ExprV>, Box<ExprV>),
    Sub(Box<ExprV>, Box<ExprV>),
    Mul(Box<ExprV>, Box<ExprV>),
    Div(Box<ExprV>, Box<ExprV>),
}

pub open spec fn expr_view(e: Expr) -> ExprV
    decreases e,
{
    match e {
        Expr::Ident(id) => ExprV::Ident(id.index as int),
        Expr::Int(n) => ExprV::Int(n),
        Expr::Add(l, r) => ExprV::Add(Box::new(expr_view(*l)), Box::new(expr_view(*r))),
        Expr::Sub(l, r) => ExprV::Sub(Box::new(expr_view(*l)), Box::new(expr_view(*r))),
        Expr::Mul(l, r) => ExprV::Mul(Box::new(expr_view(*l)), Box::new(expr_view(*r))),
        Expr::Div(l, r) => ExprV::Div(Box::new(expr_view(*l)), Box::new(expr_view(*r))),
    }
}

impl DeepView for Expr {
    type V = ExprV;

    open spec fn deep_view(&self) -> ExprV {
        expr_view(*self)
    }
}

/// One system-call argument: a literal integer kept as written, or an
/// identifier already resolved to its slot.
#[derive(Debug, Clone, Copy, PartialEq, Eq, Structural)]
pub enum SysArg {
    Int(u32),
    Ident(Ident),
}

/// The mathematical image of a system-call argument.
pub enum SysArgV {
    Int(u32),
    Ident(int),
}

impl DeepView for SysArg {
    type V = SysArgV;

    open spec fn deep_view(&self) -> SysArgV {
        match self {
            SysArg::Int(n) => SysArgV::Int(*n),
            SysArg::Ident(id) => SysArgV::Ident(id.index as int),
        }
    }
}

/// A statement: store an expression's value into a slot, call a function
/// by name (never validated against the declared functions), or request
/// a numbered system call with its ordered arguments.
#[derive(Debug)]
pub enum Statement {
    Assign(Ident, Expr),
    Call(String),
    SysCall(u32, Vec<SysArg>),
}

/// The mathematical image of a statement.
pub enum StatementV {
    Assign(int, ExprV),
    Call(Seq<char>),
    SysCall(u32, Seq<SysArgV>),
}

impl DeepView for Statement {
    type V = StatementV;

    open spec fn deep_view(&self) -> StatementV {
        match self {
            Statement::Assign(id, e) => StatementV::Assign(id.index as int, e.deep_view()),
            Statement::Call(name) => StatementV::Call(name.deep_view()),
            Statement::SysCall(n, args) => StatementV::SysCall(*n, args.deep_view()),
        }
    }
}

/// The slot of `name` in the table `t`: the first position holding
/// `name`, or a negative answer when the name is absent. A table is a
/// sequence of names in slot order, so a slot is just a position.
pub open spec fn slot_of(t: Seq<Seq<char>>, name: Seq<char>) -> int
    decreases t.len(),
{
    if t.len() == 0 {
        -1
    } else if t[0] == name {
        0
    } else {
        let r = slot_of(t.subrange(1, t.len() as int), name);
        if r == -1 {
            -1
        } else {
            r + 1
        }
    }
}

/// `slot_of` finds the first occurrence of a present name and answers
/// negatively exactly for absent names.
pub proof fn lemma_slot_of_spec(t: Seq<Seq<char>>, name: Seq<char>)
    ensures
        slot_of(t, name) == -1 ==> (forall|k: int| 0 <= k < t.len() ==> t[k] != name),
        slot_of(t, name) != -1 ==> 0 <= slot_of(t, name) < t.len() && t[slot_of(t, name)] == name
            && (forall|k: int| 0 <= k < slot_of(t, name) ==> t[k] != name),
    decreases t.len(),
{
    if t.len() > 0 && t[0] != name {
        let sub = t.subrange(1, t.len() as int);
        lemma_slot_of_spec(sub, name);
        if slot_of(t, name) == -1 {
            assert forall|k: int| 0 <= k < t.len() implies t[k] != name by {
                if k > 0 {
                    assert(t[k] == sub[k - 1]);
                }
            }
        } else {
            assert(t[slot_of(t, name)] == sub[slot_of(sub, name)]);
            assert forall|k: int| 0 <= k < slot_of(t, name) implies t[k] != name by {
                if k > 0 {
                    assert(t[k] == sub[k - 1]);
                }
            }
        }
    }
}

/// A forward scan that first finds `name` at position `j` has found its
/// slot.
pub proof fn lemma_slot_of_first(t: Seq<Seq<char>>, name: Seq<char>, j: int)
    requires
        0 <= j < t.len(),
        t[j] == name,
        forall|k: int| 0 <= k < j ==> t[k] != name,
    ensures
        slot_of(t, name) == j,
    decreases j,
{
    if j > 0 {
        lemma_slot_of_first(t.subrange(1, t.len() as int), name, j - 1);
    }
}

/// All names of a table are distinct: the table is a mapping.
pub open spec fn distinct_names(t: Seq<Seq<char>>) -> bool {
    forall|i: int, j: int| 0 <= i < j < t.len() ==> t[i] != t[j]
}

/// Binding `name` in table `t`: an already-known name keeps the table
/// unchanged, a new name is appended and receives the next slot index.
pub open spec fn spec_bind(t: Seq<Seq<char>>, name: Seq<char>) -> Seq<Seq<char>> {
    if slot_of(t, name) >= 0 {
        t
    } else {
        t.push(name)
    }
}

/// The slot that binding `name` in table `t` resolves to.
pub open spec fn spec_bind_slot(t: Seq<Seq<char>>, name: Seq<char>) -> int {
    if slot_of(t, name) >= 0 {
        slot_of(t, name)
    } else {
        t.len() as int
    }
}

/// Binding is idempotent on known names and dense on new ones: a name
/// already in the table keeps both the table and its slot unchanged,
/// while a new name is appended with the current table size as its slot,
/// so indices grow monotonically with no gaps. Distinctness of the
/// table's names is preserved either way.
pub proof fn lemma_bind_law(t: Seq<Seq<char>>, name: Seq<char>)
    ensures
        slot_of(t, name) >= 0 ==> spec_bind(t, name) == t && spec_bind_slot(t, name) == slot_of(
            t,
            name,
        ),
        slot_of(t, name) == -1 ==> spec_bind(t, name) == t.push(name) && spec_bind_slot(t, name)
            == t.len(),
        slot_of(t, name) == -1 || slot_of(t, name) >= 0,
        distinct_names(t) ==> distinct_names(spec_bind(t, name)),
{
    lemma_slot_of_spec(t, name);
    if distinct_names(t) && slot_of(t, name) == -1 {
        let t2 = t.push(name);
        assert forall|i: int, j: int| 0 <= i < j < t2.len() implies t2[i] != t2[j] by {
            if j < t.len() {
            } else {
                assert(t2[j] == name);
            }
        }
    }
}

/// A per-function identifier table: source-level names in slot order.
/// Slot indices form a dense range starting at zero — the slot of a name
/// is simply its position — and no name appears twice.
#[derive(Debug, Clone, PartialEq)]
pub struct IdentTable {
    names: Vec<String>,
}

impl View for IdentTable {
    type V = Seq<Seq<char>>;

    closed spec fn view(&self) -> Seq<Seq<char>> {
        self.names.deep_view()
    }
}

impl DeepView for IdentTable {
    type V = Seq<Seq<char>>;

    open spec fn deep_view(&self) -> Seq<Seq<char>> {
        self@
    }
}

impl IdentTable {
    /// The table invariant: names are distinct, so each name has exactly
    /// one slot.
    pub open spec fn wf(&self) -> bool {
        distinct_names(self@)
    }

    /// An empty table, as each function starts with before its
    /// parameters are seeded.
    pub fn new() -> (t: IdentTable)
        ensures
            t@ == Seq::<Seq<char>>::empty(),
            t.wf(),
    {
        let t = IdentTable { names: Vec::new() };
        proof {
            assert(t@ =~= Seq::<Seq<char>>::empty());
        }
        t
    }

    /// How many names the table holds; also the next free slot index.
    pub fn len(&self) -> (n: usize)
        ensures
            n == self@.len(),
    {
        self.names.len()
    }

    /// Resolve `name` to its slot, if the table knows it.
    pub fn lookup(&self, name: &String) -> (r: Option<Ident>)
        ensures
            match r {
                Some(id) => slot_of(self@, name@) == id.index as int,
                None => slot_of(self@, name@) == -1,
            },
    {
        let n = self.names.len();
        let mut j: usize = 0;
        while j < n
            invariant
                n == self@.len(),
                0 <= j <= n,
                forall|k: int| 0 <= k < j ==> self@[k] != name@,
            decreases n - j,
        {
            if self.names[j].eq(name) {
                proof {
                    lemma_slot_of_first(self@, name@, j as int);
                }
                return Some(Ident { index: j });
            }
            j += 1;
        }
        proof {
            lemma_slot_of_spec(self@, name@);
        }
        None
    }

    /// Bind `name`, reusing its slot when the name is already known and
    /// allocating the next index otherwise. Re-binding an existing name
    /// never changes its slot; a new name always receives the current
    /// table size, so indices grow densely with no gaps.
    pub fn bind(&mut self, name: &String) -> (id: Ident)
        ensures
            final(self)@ == spec_bind(old(self)@, name@),
            id.index as int == spec_bind_slot(old(self)@, name@),
            old(self).wf() ==> final(self).wf(),
            final(self)@.len() >= old(self)@.len(),
    {
        match self.lookup(name) {
            Some(id) => id,
            None => {
                let id = Ident { index: self.names.len() };
                self.names.push(name.clone());
                proof {
                    assert(self@ =~= old(self)@.push(name@));
                    lemma_slot_of_spec(old(self)@, name@);
                    assert(old(self).wf() ==> self.wf()) by {
                        if old(self).wf() {
                            assert forall|i: int, j: int| 0 <= i < j < self@.len() implies self@[i]
                                != self@[j] by {
                                if j < old(self)@.len() {
                                } else {
                                    assert(self@[j] == name@);
                                }
                            }
                        }
                    }
                }
                id
            },
        }
    }
}

/// A parsed function: its name (used verbatim as an assembly label), its
/// declared parameter names in order, the identifier table built while
/// parsing its body, and its statements in source order.
#[derive(Debug)]
pub struct Function {
    pub name: String,
    pub params: Vec<String>,
    pub idents: IdentTable,
    pub statements: Vec<Statement>,
}

/// The mathematical image of a parsed function.
pub struct FunctionV {
    pub name: Seq<char>,
    pub params: Seq<Seq<char>>,
    pub idents: Seq<Seq<char>>,
    pub statements: Seq<StatementV>,
}

impl DeepView for Function {
    type V = FunctionV;

    open spec fn deep_view(&self) -> FunctionV {
        FunctionV {
            name: self.name.deep_view(),
            params: self.params.deep_view(),
            idents: self.idents.deep_view(),
            statements: self.statements.deep_view(),
        }
    }
}

} // verus!
