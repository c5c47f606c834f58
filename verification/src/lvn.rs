//! Local value numbering.
//!
//! The pass scans a block once, left to right, and gives every distinct
//! computed value a number. An instruction that recomputes a value already
//! numbered becomes a copy of the first variable that held it, and every
//! operand is renamed to the first holder of its value.

use crate::numbering::{
    ascending, expr_key, first_unbound, lemma_lvn_succeeds_iff_well_scoped, lvn, scan,
    well_scoped, ExprKey, LvnErrorView, Numbering,
};
use crate::types::{Block, Instruction, InstructionView, Operation, Type};
use vstd::hash_map::StringHashMap;
use vstd::prelude::*;
use vstd::relations::{sorted_by, total_ordering};
use vstd::seq_lib::lemma_sorted_unique;

verus! {

/// Why the pass gave up.
#[derive(Debug, Clone, PartialEq, Eq)]
pub enum LvnError {
    /// An operand names a variable that no earlier instruction has bound.
    UseBeforeDefinition(String),
    /// A copy instruction lacks its operand or its destination.
    MalformedCopy,
}

impl View for LvnError {
    type V = LvnErrorView;

    open spec fn view(&self) -> LvnErrorView {
        match self {
            LvnError::UseBeforeDefinition(name) => LvnErrorView::UseBeforeDefinition(name@),
            LvnError::MalformedCopy => LvnErrorView::MalformedCopy,
        }
    }
}

/// Machine numbers read as naturals.
spec fn as_nats(numbers: Seq<usize>) -> Seq<nat> {
    numbers.map_values(|n: usize| n as nat)
}

/// Sequences with the same elements still have the same elements when read
/// as naturals.
proof fn lemma_as_nats_multiset(a: Seq<usize>, b: Seq<usize>)
    requires
        a.to_multiset() == b.to_multiset(),
    ensures
        as_nats(a).to_multiset() == as_nats(b).to_multiset(),
    decreases a.len(),
{
    broadcast use vstd::seq_lib::group_to_multiset_ensures;
    broadcast use vstd::multiset::group_multiset_axioms;

    vstd::seq_lib::to_multiset_len(a);
    vstd::seq_lib::to_multiset_len(b);
    if a.len() == 0 {
        assert(as_nats(a) =~= as_nats(b));
    } else {
        let x = a.last();
        let a0 = a.drop_last();
        assert(a =~= a0.push(x));
        assert(b.to_multiset().count(x) > 0);
        let i = choose|i: int| 0 <= i < b.len() && b[i] == x;
        let b0 = b.remove(i);
        assert(b0.to_multiset() =~= a0.to_multiset());
        lemma_as_nats_multiset(a0, b0);
        assert(as_nats(a) =~= as_nats(a0).push(x as nat));
        assert(as_nats(b).remove(i) =~= as_nats(b0));
        assert(as_nats(b)[i] == x as nat);
        assert(as_nats(b).to_multiset().count(x as nat) > 0);
        assert(as_nats(b).to_multiset() =~= as_nats(b0).to_multiset().insert(x as nat));
    }
}

/// `<[usize]>::sort`: afterwards the vector holds the same numbers, each as
/// often as before, in ascending order.
#[verifier::external_body]
fn sort_numbers(v: &mut Vec<usize>)
    ensures
        final(v)@.to_multiset() == old(v)@.to_multiset(),
        forall|i: int, j: int| 0 <= i <= j < final(v)@.len() ==> final(v)@[i] <= final(v)@[j],
{
    v.sort();
}

/// The operand list of the key of an expression whose operands are numbered
/// `numbers`.
fn key_operands(op: Operation, numbers: &Vec<usize>, value: Option<u32>) -> (r: Vec<usize>)
    ensures
        as_nats(r@) == expr_key(op, as_nats(numbers@), value).operands,
{
    let mut list: Vec<usize> = Vec::new();
    let mut k: usize = 0;
    while k < numbers.len()
        invariant
            k <= numbers.len(),
            list@ == numbers@.subrange(0, k as int),
        decreases numbers.len() - k,
    {
        list.push(numbers[k]);
        k += 1;
    }
    assert(list@ =~= numbers@);
    if let Some(v) = value {
        list.push(v as usize);
    }
    let ghost unsorted = list@;
    assert(as_nats(unsorted) =~= match value {
        Some(v) => as_nats(numbers@).push(v as nat),
        None => as_nats(numbers@),
    });
    if op.is_commutative() {
        sort_numbers(&mut list);
        proof {
            let sorted = as_nats(list@);
            lemma_as_nats_multiset(list@, unsorted);
            assert(total_ordering(ascending()));
            assert(sorted_by(sorted, ascending()));
            as_nats(unsorted).lemma_sort_by_ensures(ascending());
            lemma_sorted_unique(sorted, as_nats(unsorted).sort_by(ascending()), ascending());
        }
    }
    list
}

/// Whether two lists of numbers are the same.
fn same_numbers(a: &Vec<usize>, b: &Vec<usize>) -> (r: bool)
    ensures
        r == (a@ == b@),
{
    if a.len() != b.len() {
        return false;
    }
    let mut k: usize = 0;
    while k < a.len()
        invariant
            k <= a.len(),
            a.len() == b.len(),
            a@.subrange(0, k as int) == b@.subrange(0, k as int),
        decreases a.len() - k,
    {
        if a[k] != b[k] {
            return false;
        }
        assert(a@.subrange(0, k + 1) =~= a@.subrange(0, k as int).push(a@[k as int]));
        assert(b@.subrange(0, k + 1) =~= b@.subrange(0, k as int).push(b@[k as int]));
        k += 1;
    }
    assert(a@ =~= a@.subrange(0, k as int));
    assert(b@ =~= b@.subrange(0, k as int));
    true
}

/// One recorded expression and the number of its value.
struct Entry {
    op: Operation,
    operands: Vec<usize>,
    number: usize,
}

impl Entry {
    spec fn key(self) -> ExprKey {
        ExprKey { op: self.op, operands: as_nats(self.operands@) }
    }
}

/// The executable numbering tables, with the abstract tables they stand for.
struct Tables {
    var2num: StringHashMap<usize>,
    num2var: Vec<String>,
    exprs: Vec<Entry>,
    model: Ghost<Numbering>,
}

impl View for Tables {
    type V = Numbering;

    closed spec fn view(&self) -> Numbering {
        self.model@
    }
}

impl Tables {
    /// The executable tables hold exactly what the abstract ones do.
    spec fn wf(&self) -> bool {
        let st = self.model@;
        &&& st.wf()
        &&& self.var2num@.dom() == st.number_of.dom()
        &&& forall|name: Seq<char>| #[trigger]
            self.var2num@.contains_key(name) ==> self.var2num@[name] as nat == st.number_of[name]
        &&& self.num2var.deep_view() == st.holder
        &&& forall|i: int|
            0 <= i < self.exprs.len() ==> {
                &&& st.known.contains_key(#[trigger] self.exprs@[i].key())
                &&& st.known[self.exprs@[i].key()] == self.exprs@[i].number
            }
        &&& forall|key: ExprKey| #[trigger]
            st.known.contains_key(key) ==> exists|i: int|
                0 <= i < self.exprs.len() && #[trigger] self.exprs@[i].key() == key
    }

    fn new() -> (r: Tables)
        ensures
            r.wf(),
            r@ == Numbering::empty(),
    {
        let r = Tables {
            var2num: StringHashMap::new(),
            num2var: Vec::new(),
            exprs: Vec::new(),
            model: Ghost(Numbering::empty()),
        };
        assert(r.var2num@.dom() =~= r.model@.number_of.dom());
        assert(r.num2var.deep_view() =~= r.model@.holder);
        r
    }

    /// The number of the value that each of `args` holds.
    fn resolve(&self, args: &Vec<String>) -> (r: Result<Vec<usize>, LvnError>)
        requires
            self.wf(),
        ensures
            match r {
                Ok(numbers) => {
                    &&& first_unbound(self@.number_of.dom(), args.deep_view()) is None
                    &&& as_nats(numbers@) == self@.numbers(args.deep_view())
                    &&& forall|j: int| 0 <= j < numbers.len() ==> numbers[j] < self.num2var.len()
                },
                Err(e) => {
                    &&& first_unbound(self@.number_of.dom(), args.deep_view()) matches Some(name)
                    &&& e@ == LvnErrorView::UseBeforeDefinition(name)
                },
            },
    {
        let ghost names = args.deep_view();
        let ghost bound = self@.number_of.dom();
        let mut numbers: Vec<usize> = Vec::new();
        let mut k: usize = 0;
        assert(names.skip(0) =~= names);
        while k < args.len()
            invariant
                self.wf(),
                names == args.deep_view(),
                bound == self@.number_of.dom(),
                k <= args.len(),
                numbers.len() == k,
                first_unbound(bound, names) == first_unbound(bound, names.skip(k as int)),
                forall|j: int|
                    0 <= j < k ==> {
                        &&& bound.contains(#[trigger] names[j])
                        &&& numbers[j] as nat == self@.number_of[names[j]]
                    },
                forall|j: int| 0 <= j < k ==> #[trigger] numbers[j] < self.num2var.len(),
            decreases args.len() - k,
        {
            assert(names.skip(k as int)[0] == names[k as int]);
            assert(names.skip(k as int).drop_first() =~= names.skip(k + 1));
            assert(names[k as int] == args@[k as int]@);
            match self.var2num.get(args[k].as_str()) {
                Some(n) => {
                    assert(self.var2num@.contains_key(names[k as int]));
                    numbers.push(*n);
                },
                None => {
                    return Err(LvnError::UseBeforeDefinition(args[k].clone()));
                },
            }
            k += 1;
        }
        assert(names.skip(k as int).len() == 0);
        assert(as_nats(numbers@) =~= self@.numbers(names));
        Ok(numbers)
    }

    /// The first holder of each of the values numbered `numbers`.
    fn holders(&self, numbers: &Vec<usize>) -> (r: Vec<String>)
        requires
            self.wf(),
            forall|j: int| 0 <= j < numbers.len() ==> numbers[j] < self.num2var.len(),
        ensures
            r.len() == numbers.len(),
            forall|j: int| 0 <= j < r.len() ==> r[j]@ == self@.holder[numbers[j] as int],
    {
        let mut names: Vec<String> = Vec::new();
        let mut k: usize = 0;
        while k < numbers.len()
            invariant
                self.wf(),
                k <= numbers.len(),
                names.len() == k,
                forall|j: int| 0 <= j < numbers.len() ==> numbers[j] < self.num2var.len(),
                forall|j: int| 0 <= j < k ==> names[j]@ == self@.holder[numbers[j] as int],
            decreases numbers.len() - k,
        {
            let n = numbers[k];
            assert(self.num2var.deep_view()[n as int] == self.num2var@[n as int]@);
            names.push(self.num2var[n].clone());
            k += 1;
        }
        names
    }

    /// The number recorded for the expression `op` over `operands`.
    fn lookup(&self, op: Operation, operands: &Vec<usize>) -> (r: Option<usize>)
        requires
            self.wf(),
        ensures
            ({
                let key = ExprKey { op, operands: as_nats(operands@) };
                match r {
                    Some(n) => self@.known.contains_key(key) && self@.known[key] == n,
                    None => !self@.known.contains_key(key),
                }
            }),
    {
        let ghost key = ExprKey { op, operands: as_nats(operands@) };
        let mut k: usize = 0;
        while k < self.exprs.len()
            invariant
                self.wf(),
                k <= self.exprs.len(),
                key == (ExprKey { op, operands: as_nats(operands@) }),
                forall|j: int| 0 <= j < k ==> self.exprs@[j].key() != key,
            decreases self.exprs.len() - k,
        {
            let entry = &self.exprs[k];
            if entry.op == op && same_numbers(&entry.operands, operands) {
                assert(entry.key() == key);
                return Some(entry.number);
            }
            assert(entry.key() != key) by {
                if entry.op == op && as_nats(entry.operands@) == as_nats(operands@) {
                    lemma_as_nats_injective(entry.operands@, operands@);
                }
            }
            k += 1;
        }
        None
    }
}

/// Lists that agree as naturals agree as machine numbers.
proof fn lemma_as_nats_injective(a: Seq<usize>, b: Seq<usize>)
    requires
        as_nats(a) == as_nats(b),
    ensures
        a == b,
{
    assert(a.len() == as_nats(a).len());
    assert(b.len() == as_nats(b).len());
    assert forall|i: int| 0 <= i < a.len() implies a[i] == b[i] by {
        assert(as_nats(a)[i] == a[i] as nat);
        assert(as_nats(b)[i] == b[i] as nat);
    }
    assert(a =~= b);
}

impl Tables {
    /// Numbers one instruction and gives what it is rewritten to. On an
    /// error the tables are left as they were.
    fn rewrite(&mut self, instr: Instruction) -> (r: Result<Instruction, LvnError>)
        requires
            old(self).wf(),
        ensures
            final(self).wf(),
            match r {
                Ok(out) => old(self)@.step(instr@) == Ok::<(Numbering, InstructionView), LvnErrorView>(
                    (final(self)@, out@),
                ),
                Err(e) => {
                    &&& old(self)@.step(instr@) == Err::<(Numbering, InstructionView), LvnErrorView>(
                        e@,
                    )
                    &&& final(self)@ == old(self)@
                },
            },
    {
        let ghost st = self@;
        let ghost iv = instr@;
        let Instruction { op, args, ty, value, dest } = instr;
        if let Operation::Id = op {
            if args.len() == 0 {
                return Err(LvnError::MalformedCopy);
            }
            assert(iv.args[0] == args@[0]@);
            let n = match self.var2num.get(args[0].as_str()) {
                Some(n) => *n,
                None => {
                    return Err(LvnError::UseBeforeDefinition(args[0].clone()));
                },
            };
            let dest = match dest {
                Some(dest) => dest,
                None => {
                    return Err(LvnError::MalformedCopy);
                },
            };
            assert(self.var2num@.contains_key(iv.args[0]));
            let out = self.alias(op, n, ty, value, dest);
            return Ok(out);
        }
        let numbers = match self.resolve(&args) {
            Ok(numbers) => numbers,
            Err(e) => {
                return Err(e);
            },
        };
        match dest {
            None => {
                let names = self.holders(&numbers);
                let out = Instruction { op, args: names, ty, value, dest: None };
                proof {
                    lemma_holders_are_canonical(st, iv.args, numbers@, out@.args);
                }
                Ok(out)
            },
            Some(dest) => {
                let operands = key_operands(op, &numbers, value);
                match self.lookup(op, &operands) {
                    Some(n) => {
                        let out = self.alias(Operation::Id, n, ty, None, dest);
                        Ok(out)
                    },
                    None => {
                        let names = self.holders(&numbers);
                        let n = self.num2var.len();
                        let ghost key = ExprKey { op, operands: as_nats(operands@) };
                        let ghost recorded = self.exprs@;
                        self.var2num.insert(dest.clone(), n);
                        self.num2var.push(dest.clone());
                        self.exprs.push(Entry { op, operands, number: n });
                        self.model = Ghost(st.allocate(dest@, key));
                        let out = Instruction { op, args: names, ty, value, dest: Some(dest) };
                        proof {
                            lemma_holders_are_canonical(st, iv.args, numbers@, out@.args);
                            assert(self.var2num@.dom() =~= self@.number_of.dom());
                            assert(self.num2var.deep_view() =~= self@.holder);
                            assert(self.exprs@[self.exprs.len() - 1].key() == key);
                            assert forall|i: int| 0 <= i < self.exprs.len() implies {
                                &&& self@.known.contains_key(#[trigger] self.exprs@[i].key())
                                &&& self@.known[self.exprs@[i].key()] == self.exprs@[i].number
                            } by {
                                if i < self.exprs.len() - 1 {
                                    assert(st.known.contains_key(self.exprs@[i].key()));
                                }
                            }
                            assert forall|k: ExprKey| #[trigger]
                                self@.known.contains_key(k) implies exists|i: int|
                                0 <= i < self.exprs.len() && #[trigger] self.exprs@[i].key()
                                    == k by {
                                if k == key {
                                    assert(self.exprs@[self.exprs.len() - 1].key() == k);
                                } else {
                                    assert(st.known.contains_key(k));
                                    let i = choose|i: int|
                                        0 <= i < recorded.len() && #[trigger] recorded[i].key() == k;
                                    assert(self.exprs@[i].key() == k);
                                }
                            }
                        }
                        Ok(out)
                    },
                }
            },
        }
    }

    /// Binds `dest` to the value numbered `n` and gives the instruction
    /// that copies that value from its first holder.
    fn alias(
        &mut self,
        op: Operation,
        n: usize,
        ty: Option<Type>,
        value: Option<u32>,
        dest: String,
    ) -> (out: Instruction)
        requires
            old(self).wf(),
            n < old(self)@.holder.len(),
        ensures
            final(self).wf(),
            final(self)@ == old(self)@.rebind(dest@, n as nat),
            out@ == (InstructionView {
                op,
                args: seq![old(self)@.holder[n as int]],
                ty,
                value,
                dest: Some(dest@),
            }),
    {
        let ghost st = self@;
        assert(self.num2var.deep_view()[n as int] == self.num2var@[n as int]@);
        let first = self.num2var[n].clone();
        let mut names: Vec<String> = Vec::new();
        names.push(first);
        self.var2num.insert(dest.clone(), n);
        self.model = Ghost(st.rebind(dest@, n as nat));
        let out = Instruction { op, args: names, ty, value, dest: Some(dest) };
        proof {
            assert(out@.args =~= seq![st.holder[n as int]]);
            assert(self.var2num@.dom() =~= self@.number_of.dom());
        }
        out
    }
}

/// The holders of the numbers of `args` are the canonical names of `args`.
proof fn lemma_holders_are_canonical(
    st: Numbering,
    args: Seq<Seq<char>>,
    numbers: Seq<usize>,
    names: Seq<Seq<char>>,
)
    requires
        as_nats(numbers) == st.numbers(args),
        names.len() == numbers.len(),
        forall|j: int| 0 <= j < names.len() ==> names[j] == st.holder[numbers[j] as int],
    ensures
        names == st.canonical(args),
{
    assert(numbers.len() == as_nats(numbers).len());
    assert forall|j: int| 0 <= j < names.len() implies names[j] == st.canonical(args)[j] by {
        assert(as_nats(numbers)[j] == numbers[j] as nat);
        assert(st.numbers(args)[j] == st.number_of[args[j]]);
    }
    assert(names =~= st.canonical(args));
}

/// Once an instruction has failed, the scan of any longer prefix fails in
/// the same way.
proof fn lemma_error_sticks(block: Seq<InstructionView>, k: int, n: int)
    requires
        k <= n,
        scan(block, k) is Err,
    ensures
        scan(block, n) == scan(block, k),
    decreases n - k,
{
    if k < n {
        lemma_error_sticks(block, k, n - 1);
    }
}

/// Applies local value numbering to `block`.
///
/// The result is the block rewritten instruction by instruction as
/// [`Numbering::step`] says, of the same length as the input; or the error
/// of the first instruction that reads a variable no earlier instruction
/// has bound, or that is a copy without operand or destination. The pass
/// succeeds exactly when there is no such instruction.
pub fn local_value_numbering(block: Block) -> (r: Result<Block, LvnError>)
    ensures
        match r {
            Ok(out) => lvn(block.deep_view()) == Ok::<Seq<InstructionView>, LvnErrorView>(
                out.deep_view(),
            ),
            Err(e) => lvn(block.deep_view()) == Err::<Seq<InstructionView>, LvnErrorView>(e@),
        },
        r is Ok <==> well_scoped(block.deep_view()),
        r matches Ok(out) ==> out.len() == block.len(),
{
    let ghost input = block@;
    let ghost views = block.deep_view();
    let mut tables = Tables::new();
    let mut out: Vec<Instruction> = Vec::new();
    assert(out.deep_view() =~= Seq::empty());
    for instr in it: block.into_iter()
        invariant
            it.seq() == input,
            views == block.deep_view(),
            views.len() == input.len(),
            forall|j: int| 0 <= j < input.len() ==> views[j] == input[j]@,
            tables.wf(),
            out.len() == it.index(),
            scan(views, it.index() as int) == Ok::<
                (Numbering, Seq<InstructionView>),
                LvnErrorView,
            >((tables@, out.deep_view())),
    {
        let ghost k = it.index() as int;
        let ghost before = out.deep_view();
        assert(instr == input[k]);
        match tables.rewrite(instr) {
            Ok(rewritten) => {
                out.push(rewritten);
                assert(out.deep_view() =~= before.push(rewritten@));
            },
            Err(e) => {
                proof {
                    assert(scan(views, k + 1) is Err);
                    lemma_error_sticks(views, k + 1, views.len() as int);
                    lemma_lvn_succeeds_iff_well_scoped(views);
                }
                return Err(e);
            },
        }
    }
    proof {
        lemma_lvn_succeeds_iff_well_scoped(views);
    }
    Ok(out)
}

} // verus!
