//! The execution engine: a machine over a token sequence with an operand
//! stack, a variable store, loop-marker stacks and a program counter, and a
//! single-step transition relation that the executable stepper is proved
//! against.

use vstd::prelude::*;

use crate::numeric::parse_i32;
use crate::numeric::parse_i32_spec;
use crate::numeric::pow_checked;
use crate::numeric::pow_checked_spec;
use crate::numeric::trunc_div;
use crate::strops::str_eq;
use crate::tokenizer::split;
use crate::tokenizer::tokenize;
use crate::tokenizer::views_of;
use crate::value::truthy;
use crate::value::Value;
use crate::value::ValueView;
use vstd::string::StrSliceExecFns;
use vstd::string::StringExecFns;

verus! {

/// A fatal error: the engine stops at once and does not recover.
#[derive(Debug, Clone, Copy, PartialEq, Eq, Structural)]
pub enum VmError {
    /// An operation needed more operands than the stack held.
    StackUnderflow,
    /// An operation requiring an integer met a boolean or a string.
    TypeMismatch,
    /// `load` named a variable never declared or assigned.
    UnboundVariable,
    /// An `if` whose skip scan found no matching `end`.
    UnmatchedIf,
    /// `repeat` with no `begin` marker on the begin-stack.
    RepeatWithoutBegin,
    /// A bare token that is no keyword, literal, nor parseable integer.
    UnknownToken,
    /// `mem`, `store` or `load` stood at the end of the tokens with no name
    /// token after it.
    MissingName,
    /// `/` asked to divide by zero.
    DivisionByZero,
    /// An arithmetic result left the 32-bit signed range.
    NumericOverflow,
}

/// One line of the run's print effect: the value atop the stack, or the
/// notice that the stack was empty.
#[derive(Debug, PartialEq)]
pub enum Printed {
    Value(Value),
    EmptyStack,
}

/// The model of one print effect.
pub enum PrintedView {
    Value(ValueView),
    EmptyStack,
}

impl View for Printed {
    type V = PrintedView;

    open spec fn view(&self) -> PrintedView {
        match self {
            Printed::Value(v) => PrintedView::Value(v@),
            Printed::EmptyStack => PrintedView::EmptyStack,
        }
    }
}

/// The mathematical model of the engine's whole state.
#[verifier::ext_equal]
pub struct State {
    /// The program, as token character sequences.
    pub tokens: Seq<Seq<char>>,
    /// The index of the next token to execute.
    pub pc: int,
    /// The operand stack, last element on top.
    pub stack: Seq<ValueView>,
    /// The variable store, an association list read by first match.
    pub store: Seq<(Seq<char>, ValueView)>,
    /// Saved positions of `while` tokens.
    pub whiles: Seq<int>,
    /// Saved positions of `begin` tokens.
    pub begins: Seq<int>,
    /// The print effects produced so far, in order.
    pub output: Seq<PrintedView>,
}

impl State {
    /// Whether the machine still has a token to execute.
    pub open spec fn running(self) -> bool {
        0 <= self.pc < self.tokens.len()
    }
}

/// The starting state on a token sequence: everything empty, the program
/// counter at the first token.
pub open spec fn init_state(tokens: Seq<Seq<char>>) -> State {
    State {
        tokens,
        pc: 0,
        stack: Seq::empty(),
        store: Seq::empty(),
        whiles: Seq::empty(),
        begins: Seq::empty(),
        output: Seq::empty(),
    }
}

/// The value bound to `name`, reading the association list front to back.
pub open spec fn assoc_get(store: Seq<(Seq<char>, ValueView)>, name: Seq<char>) -> Option<
    ValueView,
>
    decreases store.len(),
{
    if store.len() == 0 {
        Option::None
    } else if store[0].0 == name {
        Option::Some(store[0].1)
    } else {
        assoc_get(store.drop_first(), name)
    }
}

/// The association list with `name` bound to `v`: the first entry for
/// `name` is replaced, or a new entry appended.
pub open spec fn assoc_set(
    store: Seq<(Seq<char>, ValueView)>,
    name: Seq<char>,
    v: ValueView,
) -> Seq<(Seq<char>, ValueView)>
    decreases store.len(),
{
    if store.len() == 0 {
        seq![(name, v)]
    } else if store[0].0 == name {
        seq![(name, v)] + store.drop_first()
    } else {
        seq![store[0]] + assoc_set(store.drop_first(), name, v)
    }
}

/// Binding a name and then reading it back yields exactly the bound value.
pub proof fn lemma_store_round_trip(
    store: Seq<(Seq<char>, ValueView)>,
    name: Seq<char>,
    v: ValueView,
)
    ensures
        assoc_get(assoc_set(store, name, v), name) == Some(v),
    decreases store.len(),
{
    if store.len() == 0 {
        assert(assoc_set(store, name, v)[0] == (name, v));
    } else if store[0].0 == name {
        assert(assoc_set(store, name, v)[0] == (name, v));
    } else {
        lemma_store_round_trip(store.drop_first(), name, v);
        assert(assoc_set(store, name, v)[0] == store[0]);
        assert(assoc_set(store, name, v).drop_first() =~= assoc_set(
            store.drop_first(),
            name,
            v,
        ));
    }
}

/// Binding one name leaves every other name's binding unchanged.
pub proof fn lemma_store_other_name(
    store: Seq<(Seq<char>, ValueView)>,
    name: Seq<char>,
    other: Seq<char>,
    v: ValueView,
)
    requires
        other != name,
    ensures
        assoc_get(assoc_set(store, name, v), other) == assoc_get(store, other),
    decreases store.len(),
{
    if store.len() == 0 {
        assert(assoc_set(store, name, v)[0] == (name, v));
        assert(assoc_set(store, name, v).drop_first() =~= store);
    } else if store[0].0 == name {
        assert(assoc_set(store, name, v)[0] == (name, v));
        assert(assoc_set(store, name, v).drop_first() =~= store.drop_first());
    } else {
        lemma_store_other_name(store.drop_first(), name, other, v);
        assert(assoc_set(store, name, v)[0] == store[0]);
        assert(assoc_set(store, name, v).drop_first() =~= assoc_set(
            store.drop_first(),
            name,
            v,
        ));
    }
}

/// The index of the `end` matching an `if`, scanning from `i` at nesting
/// depth `depth`: an `if` deepens the nesting, an `end` closes one level,
/// and the scan stops on the `end` that closes the outermost level. `None`
/// when the tokens run out first.
pub open spec fn find_end(tokens: Seq<Seq<char>>, i: int, depth: int) -> Option<int>
    decreases tokens.len() - i,
{
    if i < 0 || i >= tokens.len() {
        Option::None
    } else if tokens[i] == "if"@ {
        find_end(tokens, i + 1, depth + 1)
    } else if tokens[i] == "end"@ {
        if depth <= 1 {
            Option::Some(i)
        } else {
            find_end(tokens, i + 1, depth - 1)
        }
    } else {
        find_end(tokens, i + 1, depth)
    }
}

/// A found match lies within the tokens and is an `end` token.
pub proof fn lemma_find_end_is_end(tokens: Seq<Seq<char>>, i: int, depth: int)
    requires
        find_end(tokens, i, depth) matches Some(j),
    ensures
        find_end(tokens, i, depth) matches Some(j) ==> i <= j < tokens.len() && tokens[j]
            == "end"@,
    decreases tokens.len() - i,
{
    if 0 <= i < tokens.len() {
        if tokens[i] == "if"@ {
            lemma_find_end_is_end(tokens, i + 1, depth + 1);
        } else if tokens[i] == "end"@ {
            if depth > 1 {
                lemma_find_end_is_end(tokens, i + 1, depth - 1);
            }
        } else {
            lemma_find_end_is_end(tokens, i + 1, depth);
        }
    }
}

/// The two integers an arithmetic operation consumes: the top of the stack
/// is the right operand. The first missing operand is an underflow; a
/// non-integer operand is a type mismatch, found before the operand below
/// it is examined.
pub open spec fn take2(stack: Seq<ValueView>) -> Result<(i32, i32, Seq<ValueView>), VmError> {
    if stack.len() == 0 {
        Result::Err(VmError::StackUnderflow)
    } else {
        match stack.last() {
            ValueView::Int(b) => {
                let rest1 = stack.drop_last();
                if rest1.len() == 0 {
                    Result::Err(VmError::StackUnderflow)
                } else {
                    match rest1.last() {
                        ValueView::Int(a) => Result::Ok((a, b, rest1.drop_last())),
                        _ => Result::Err(VmError::TypeMismatch),
                    }
                }
            },
            _ => Result::Err(VmError::TypeMismatch),
        }
    }
}

/// The integer an arithmetic token produces from its two operands, checked
/// against the 32-bit range. `/` rejects a zero divisor; `^` reads its
/// right operand as an unsigned exponent.
pub open spec fn arith_result(t: Seq<char>, a: i32, b: i32) -> Result<i32, VmError> {
    if t == "+"@ {
        match a.checked_add(b) {
            Option::Some(v) => Result::Ok(v),
            Option::None => Result::Err(VmError::NumericOverflow),
        }
    } else if t == "-"@ {
        match a.checked_sub(b) {
            Option::Some(v) => Result::Ok(v),
            Option::None => Result::Err(VmError::NumericOverflow),
        }
    } else if t == "*"@ {
        match a.checked_mul(b) {
            Option::Some(v) => Result::Ok(v),
            Option::None => Result::Err(VmError::NumericOverflow),
        }
    } else if t == "/"@ {
        if b == 0 {
            Result::Err(VmError::DivisionByZero)
        } else {
            match a.checked_div(b) {
                Option::Some(v) => Result::Ok(v),
                Option::None => Result::Err(VmError::NumericOverflow),
            }
        }
    } else {
        match pow_checked_spec(a, (b as u32) as nat) {
            Option::Some(v) => Result::Ok(v),
            Option::None => Result::Err(VmError::NumericOverflow),
        }
    }
}

/// The single-step transition: what executing the token at the program
/// counter does to the state, or the fatal error it raises.
pub open spec fn spec_step(s: State) -> Result<State, VmError>
    recommends
        s.running(),
{
    let t = s.tokens[s.pc];
    if t == "+"@ || t == "-"@ || t == "*"@ || t == "/"@ || t == "^"@ {
        match take2(s.stack) {
            Result::Ok((a, b, rest)) => match arith_result(t, a, b) {
                Result::Ok(v) => Result::Ok(
                    State { stack: rest.push(ValueView::Int(v)), pc: s.pc + 1, ..s },
                ),
                Result::Err(e) => Result::Err(e),
            },
            Result::Err(e) => Result::Err(e),
        }
    } else if t == "."@ {
        let ev = if s.stack.len() > 0 {
            PrintedView::Value(s.stack.last())
        } else {
            PrintedView::EmptyStack
        };
        Result::Ok(State { output: s.output.push(ev), pc: s.pc + 1, ..s })
    } else if t == "dup"@ {
        if s.stack.len() == 0 {
            Result::Err(VmError::StackUnderflow)
        } else {
            Result::Ok(State { stack: s.stack.push(s.stack.last()), pc: s.pc + 1, ..s })
        }
    } else if t == "while"@ {
        Result::Ok(State { whiles: s.whiles.push(s.pc), pc: s.pc + 1, ..s })
    } else if t == "if"@ {
        if s.stack.len() == 0 {
            Result::Err(VmError::StackUnderflow)
        } else {
            let rest = s.stack.drop_last();
            if truthy(s.stack.last()) {
                Result::Ok(State { stack: rest, pc: s.pc + 1, ..s })
            } else {
                match find_end(s.tokens, s.pc + 1, 1) {
                    Option::Some(j) => Result::Ok(State { stack: rest, pc: j + 1, ..s }),
                    Option::None => Result::Err(VmError::UnmatchedIf),
                }
            }
        }
    } else if t == "end"@ {
        if s.whiles.len() > 0 {
            Result::Ok(State { pc: s.whiles.last(), ..s })
        } else {
            Result::Ok(State { pc: s.pc + 1, ..s })
        }
    } else if t == "mem"@ {
        if s.pc + 1 < s.tokens.len() {
            Result::Ok(
                State {
                    store: assoc_set(s.store, s.tokens[s.pc + 1], ValueView::Int(0)),
                    pc: s.pc + 2,
                    ..s
                },
            )
        } else {
            Result::Err(VmError::MissingName)
        }
    } else if t == "store"@ {
        if s.pc + 1 >= s.tokens.len() {
            Result::Err(VmError::MissingName)
        } else if s.stack.len() == 0 {
            Result::Err(VmError::StackUnderflow)
        } else {
            Result::Ok(
                State {
                    store: assoc_set(s.store, s.tokens[s.pc + 1], s.stack.last()),
                    stack: s.stack.drop_last(),
                    pc: s.pc + 2,
                    ..s
                },
            )
        }
    } else if t == "load"@ {
        if s.pc + 1 >= s.tokens.len() {
            Result::Err(VmError::MissingName)
        } else {
            match assoc_get(s.store, s.tokens[s.pc + 1]) {
                Option::Some(v) => Result::Ok(
                    State { stack: s.stack.push(v), pc: s.pc + 2, ..s },
                ),
                Option::None => Result::Err(VmError::UnboundVariable),
            }
        }
    } else if t == "begin"@ {
        Result::Ok(State { begins: s.begins.push(s.pc), pc: s.pc + 1, ..s })
    } else if t == "repeat"@ {
        if s.stack.len() == 0 {
            Result::Err(VmError::StackUnderflow)
        } else {
            let rest = s.stack.drop_last();
            if truthy(s.stack.last()) {
                if s.begins.len() > 0 {
                    Result::Ok(State { stack: rest, pc: s.begins.last() + 1, ..s })
                } else {
                    Result::Err(VmError::RepeatWithoutBegin)
                }
            } else {
                let nb = if s.begins.len() > 0 {
                    s.begins.drop_last()
                } else {
                    s.begins
                };
                Result::Ok(State { stack: rest, begins: nb, pc: s.pc + 1, ..s })
            }
        }
    } else if t == "true"@ {
        Result::Ok(State { stack: s.stack.push(ValueView::Bool(true)), pc: s.pc + 1, ..s })
    } else if t == "false"@ {
        Result::Ok(State { stack: s.stack.push(ValueView::Bool(false)), pc: s.pc + 1, ..s })
    } else if t.len() >= 2 && t[0] == '"' && t.last() == '"' {
        Result::Ok(
            State {
                stack: s.stack.push(ValueView::Str(t.subrange(1, t.len() - 1))),
                pc: s.pc + 1,
                ..s
            },
        )
    } else {
        match parse_i32_spec(t) {
            Option::Some(n) => Result::Ok(
                State { stack: s.stack.push(ValueView::Int(n)), pc: s.pc + 1, ..s },
            ),
            Option::None => Result::Err(VmError::UnknownToken),
        }
    }
}

/// The character-sequence view of an operand stack.
pub open spec fn stack_view(s: Seq<Value>) -> Seq<ValueView> {
    s.map_values(|v: Value| v@)
}

/// The model view of a variable store.
pub open spec fn store_view(s: Seq<(String, Value)>) -> Seq<(Seq<char>, ValueView)> {
    s.map_values(|p: (String, Value)| (p.0@, p.1@))
}

/// The model view of a loop-marker stack.
pub open spec fn marks_view(s: Seq<usize>) -> Seq<int> {
    s.map_values(|u: usize| u as int)
}

/// The model view of the print effects.
pub open spec fn output_view(s: Seq<Printed>) -> Seq<PrintedView> {
    s.map_values(|p: Printed| p@)
}

/// The execution engine's state for one run. Create one per run; nothing
/// persists across runs.
pub struct Machine {
    /// The program's tokens, fixed for the run.
    pub tokens: Vec<String>,
    /// The index of the next token to execute.
    pub pc: usize,
    /// The operand stack.
    pub stack: Vec<Value>,
    /// The variable store.
    pub store: Vec<(String, Value)>,
    /// Saved positions of `while` tokens.
    pub whiles: Vec<usize>,
    /// Saved positions of `begin` tokens.
    pub begins: Vec<usize>,
    /// The print effects produced so far.
    pub output: Vec<Printed>,
}

impl View for Machine {
    type V = State;

    open spec fn view(&self) -> State {
        State {
            tokens: views_of(self.tokens@),
            pc: self.pc as int,
            stack: stack_view(self.stack@),
            store: store_view(self.store@),
            whiles: marks_view(self.whiles@),
            begins: marks_view(self.begins@),
            output: output_view(self.output@),
        }
    }
}

impl Machine {
    /// Every saved loop marker points into the tokens.
    pub open spec fn wf(self) -> bool {
        &&& forall|i: int|
            0 <= i < self.begins@.len() ==> #[trigger] self.begins@[i] < self.tokens@.len()
        &&& forall|i: int|
            0 <= i < self.whiles@.len() ==> #[trigger] self.whiles@[i] < self.tokens@.len()
    }

    /// A fresh machine over the given tokens.
    pub fn new(tokens: Vec<String>) -> (m: Machine)
        ensures
            m@ == init_state(views_of(tokens@)),
            m.wf(),
    {
        let m = Machine {
            tokens,
            pc: 0,
            stack: Vec::new(),
            store: Vec::new(),
            whiles: Vec::new(),
            begins: Vec::new(),
            output: Vec::new(),
        };
        proof {
            assert(m@ =~= init_state(views_of(m.tokens@)));
        }
        m
    }

    /// A fresh machine over the tokens of the given program text.
    pub fn from_source(src: &str) -> (m: Machine)
        ensures
            m@ == init_state(tokenize(src@)),
            m.wf(),
    {
        Machine::new(split(src))
    }
}

/// Find the `end` matching an `if`, scanning the tokens from `from`.
fn scan_end(tokens: &Vec<String>, from: usize) -> (r: Option<usize>)
    requires
        from >= 1,
    ensures
        match r {
            Option::Some(j) => find_end(views_of(tokens@), from as int, 1) == Some(j as int) && j
                < tokens@.len(),
            Option::None => find_end(views_of(tokens@), from as int, 1) is None,
        },
{
    let mut j = from;
    let mut depth: usize = 1;
    loop
        invariant
            1 <= from <= j,
            1 <= depth,
            depth <= 1 + j - from,
            find_end(views_of(tokens@), from as int, 1) == find_end(
                views_of(tokens@),
                j as int,
                depth as int,
            ),
        decreases tokens@.len() - j,
    {
        if j >= tokens.len() {
            return None;
        }
        if str_eq(tokens[j].as_str(), "if") {
            depth = depth + 1;
        } else if str_eq(tokens[j].as_str(), "end") {
            if depth == 1 {
                return Some(j);
            }
            depth = depth - 1;
        }
        j = j + 1;
    }
}

/// Look a name up in the store, yielding a copy of its value.
fn store_get(store: &Vec<(String, Value)>, name: &str) -> (r: Option<Value>)
    ensures
        match r {
            Option::Some(v) => assoc_get(store_view(store@), name@) == Some(v@),
            Option::None => assoc_get(store_view(store@), name@) is None,
        },
{
    let n = store.len();
    let mut i: usize = 0;
    proof {
        assert(store_view(store@).skip(0) =~= store_view(store@));
    }
    while i < n
        invariant
            n == store@.len(),
            i <= n,
            assoc_get(store_view(store@), name@) == assoc_get(
                store_view(store@).skip(i as int),
                name@,
            ),
        decreases n - i,
    {
        proof {
            assert(store_view(store@).skip(i as int)[0] == store_view(store@)[i as int]);
            assert(store_view(store@).skip(i as int).drop_first() =~= store_view(store@).skip(
                i + 1,
            ));
        }
        if str_eq(store[i].0.as_str(), name) {
            return Some(store[i].1.duplicate());
        }
        i = i + 1;
    }
    proof {
        assert(store_view(store@).skip(n as int) =~= Seq::<(Seq<char>, ValueView)>::empty());
    }
    None
}

/// Replacing the first entry for a present name is the same association
/// list as the model's update.
proof fn lemma_assoc_set_update(
    s: Seq<(Seq<char>, ValueView)>,
    name: Seq<char>,
    v: ValueView,
    i: int,
)
    requires
        0 <= i < s.len(),
        s[i].0 == name,
        forall|j: int| 0 <= j < i ==> (#[trigger] s[j]).0 != name,
    ensures
        assoc_set(s, name, v) =~= s.update(i, (name, v)),
    decreases i,
{
    if i == 0 {
        assert(seq![(name, v)] + s.drop_first() =~= s.update(0, (name, v)));
    } else {
        assert(s.drop_first()[i - 1].0 == name);
        assert(forall|j: int| 0 <= j < i - 1 ==> (#[trigger] s.drop_first()[j]).0 != name);
        lemma_assoc_set_update(s.drop_first(), name, v, i - 1);
        assert(seq![s[0]] + s.drop_first().update(i - 1, (name, v)) =~= s.update(i, (name, v)));
    }
}

/// Appending an absent name is the model's update too.
proof fn lemma_assoc_set_append(s: Seq<(Seq<char>, ValueView)>, name: Seq<char>, v: ValueView)
    requires
        forall|j: int| 0 <= j < s.len() ==> (#[trigger] s[j]).0 != name,
    ensures
        assoc_set(s, name, v) =~= s.push((name, v)),
    decreases s.len(),
{
    if s.len() == 0 {
        assert(assoc_set(s, name, v) =~= s.push((name, v)));
    } else {
        assert(forall|j: int| 0 <= j < s.drop_first().len() ==> (#[trigger] s.drop_first()[j]).0
            != name);
        lemma_assoc_set_append(s.drop_first(), name, v);
        assert(seq![s[0]] + s.drop_first().push((name, v)) =~= s.push((name, v)));
    }
}

/// Bind a name in the store, replacing its first entry or appending one.
fn store_set(store: &mut Vec<(String, Value)>, name: String, v: Value)
    ensures
        store_view(final(store)@) == assoc_set(store_view(old(store)@), name@, v@),
{
    let n = store.len();
    let mut i: usize = 0;
    while i < n
        invariant
            n == store@.len(),
            i <= n,
            store@ == old(store)@,
            forall|j: int| 0 <= j < i ==> (#[trigger] store_view(store@)[j]).0 != name@,
        decreases n - i,
    {
        if str_eq(store[i].0.as_str(), name.as_str()) {
            proof {
                assert(store_view(store@)[i as int].0 == name@);
                lemma_assoc_set_update(store_view(store@), name@, v@, i as int);
            }
            let ghost pre = store@;
            store[i] = (name, v);
            proof {
                assert(store_view(store@) =~= store_view(pre).update(
                    i as int,
                    (name@, v@),
                ));
            }
            return ;
        }
        i = i + 1;
    }
    proof {
        lemma_assoc_set_append(store_view(store@), name@, v@);
    }
    let ghost pre = store@;
    store.push((name, v));
    proof {
        assert(store_view(store@) =~= store_view(pre).push((name@, v@)));
    }
}

impl Machine {
    /// Execute one arithmetic token: pop the two integer operands, compute,
    /// push the result.
    fn step_arith(&mut self) -> (r: Result<(), VmError>)
        requires
            old(self)@.running(),
            old(self).wf(),
            ({
                let t = old(self)@.tokens[old(self)@.pc];
                t == "+"@ || t == "-"@ || t == "*"@ || t == "/"@ || t == "^"@
            }),
        ensures
            final(self).wf(),
            r is Ok ==> spec_step(old(self)@) == Result::<State, VmError>::Ok(final(self)@),
            r matches Err(e) ==> spec_step(old(self)@) == Result::<State, VmError>::Err(e)
                && final(self)@ == old(self)@,
    {
        let ghost s0 = self@;
        let ntok = self.tokens.len();
        proof {
            assert(self.pc < ntok);
        }
        let n = self.stack.len();
        if n == 0 {
            return Err(VmError::StackUnderflow);
        }
        let b = match &self.stack[n - 1] {
            Value::Int(x) => *x,
            _ => {
                return Err(VmError::TypeMismatch);
            },
        };
        proof {
            assert(s0.stack.last() == ValueView::Int(b));
        }
        if n == 1 {
            return Err(VmError::StackUnderflow);
        }
        let a = match &self.stack[n - 2] {
            Value::Int(x) => *x,
            _ => {
                proof {
                    assert(s0.stack.drop_last().last() == s0.stack[n - 2]);
                }
                return Err(VmError::TypeMismatch);
            },
        };
        proof {
            assert(s0.stack.drop_last().last() == s0.stack[n - 2]);
            assert(s0.stack.drop_last().last() == ValueView::Int(a));
        }
        let v: i32;
        if str_eq(self.tokens[self.pc].as_str(), "+") {
            v = match a.checked_add(b) {
                Some(x) => x,
                None => {
                    return Err(VmError::NumericOverflow);
                },
            };
        } else if str_eq(self.tokens[self.pc].as_str(), "-") {
            v = match a.checked_sub(b) {
                Some(x) => x,
                None => {
                    return Err(VmError::NumericOverflow);
                },
            };
        } else if str_eq(self.tokens[self.pc].as_str(), "*") {
            v = match a.checked_mul(b) {
                Some(x) => x,
                None => {
                    return Err(VmError::NumericOverflow);
                },
            };
        } else if str_eq(self.tokens[self.pc].as_str(), "/") {
            if b == 0 {
                return Err(VmError::DivisionByZero);
            }
            v = match a.checked_div(b) {
                Some(x) => x,
                None => {
                    return Err(VmError::NumericOverflow);
                },
            };
        } else {
            let e = #[verifier::truncate] (b as u32);
            v = match pow_checked(a, e) {
                Some(x) => x,
                None => {
                    return Err(VmError::NumericOverflow);
                },
            };
        }
        let _ = self.stack.pop();
        let _ = self.stack.pop();
        self.stack.push(Value::Int(v));
        self.pc = self.pc + 1;
        proof {
            assert(self@ =~= spec_step(s0)->Ok_0);
        }
        Ok(())
    }

    /// Execute the token at the program counter. `Ok` leaves the machine one
    /// transition further; an error leaves it untouched.
    pub fn step(&mut self) -> (r: Result<(), VmError>)
        requires
            old(self)@.running(),
            old(self).wf(),
        ensures
            final(self).wf(),
            r is Ok ==> spec_step(old(self)@) == Result::<State, VmError>::Ok(final(self)@),
            r matches Err(e) ==> spec_step(old(self)@) == Result::<State, VmError>::Err(e)
                && final(self)@ == old(self)@,
    {
        let ghost s0 = self@;
        let ntok = self.tokens.len();
        if str_eq(self.tokens[self.pc].as_str(), "+") || str_eq(
            self.tokens[self.pc].as_str(),
            "-",
        ) || str_eq(self.tokens[self.pc].as_str(), "*") || str_eq(
            self.tokens[self.pc].as_str(),
            "/",
        ) || str_eq(self.tokens[self.pc].as_str(), "^") {
            self.step_arith()
        } else if str_eq(self.tokens[self.pc].as_str(), ".") {
            let n = self.stack.len();
            if n > 0 {
                let top = self.stack[n - 1].duplicate();
                self.output.push(Printed::Value(top));
            } else {
                self.output.push(Printed::EmptyStack);
            }
            self.pc = self.pc + 1;
            proof {
                assert(self@ =~= spec_step(s0)->Ok_0);
            }
            Ok(())
        } else if str_eq(self.tokens[self.pc].as_str(), "dup") {
            let n = self.stack.len();
            if n == 0 {
                return Err(VmError::StackUnderflow);
            }
            let top = self.stack[n - 1].duplicate();
            self.stack.push(top);
            self.pc = self.pc + 1;
            proof {
                assert(self@ =~= spec_step(s0)->Ok_0);
            }
            Ok(())
        } else if str_eq(self.tokens[self.pc].as_str(), "while") {
            self.whiles.push(self.pc);
            self.pc = self.pc + 1;
            proof {
                assert(self@ =~= spec_step(s0)->Ok_0);
            }
            Ok(())
        } else if str_eq(self.tokens[self.pc].as_str(), "if") {
            let n = self.stack.len();
            if n == 0 {
                return Err(VmError::StackUnderflow);
            }
            let cond = self.stack[n - 1].as_bool();
            if cond {
                let _ = self.stack.pop();
                self.pc = self.pc + 1;
                proof {
                    assert(self@ =~= spec_step(s0)->Ok_0);
                }
                Ok(())
            } else {
                match scan_end(&self.tokens, self.pc + 1) {
                    Some(j) => {
                        let _ = self.stack.pop();
                        self.pc = j + 1;
                        proof {
                            assert(self@ =~= spec_step(s0)->Ok_0);
                        }
                        Ok(())
                    },
                    None => Err(VmError::UnmatchedIf),
                }
            }
        } else if str_eq(self.tokens[self.pc].as_str(), "end") {
            if self.whiles.len() > 0 {
                self.pc = self.whiles[self.whiles.len() - 1];
            } else {
                self.pc = self.pc + 1;
            }
            proof {
                assert(self@ =~= spec_step(s0)->Ok_0);
            }
            Ok(())
        } else if str_eq(self.tokens[self.pc].as_str(), "mem") {
            if self.pc + 1 < ntok {
                let name = self.tokens[self.pc + 1].clone();
                store_set(&mut self.store, name, Value::Int(0));
                self.pc = self.pc + 2;
                proof {
                    assert(self@ =~= spec_step(s0)->Ok_0);
                }
                Ok(())
            } else {
                Err(VmError::MissingName)
            }
        } else if str_eq(self.tokens[self.pc].as_str(), "store") {
            if self.pc + 1 >= ntok {
                return Err(VmError::MissingName);
            }
            let n = self.stack.len();
            if n == 0 {
                return Err(VmError::StackUnderflow);
            }
            let name = self.tokens[self.pc + 1].clone();
            let v = self.stack.pop().unwrap();
            store_set(&mut self.store, name, v);
            self.pc = self.pc + 2;
            proof {
                assert(self@ =~= spec_step(s0)->Ok_0);
            }
            Ok(())
        } else if str_eq(self.tokens[self.pc].as_str(), "load") {
            if self.pc + 1 >= ntok {
                return Err(VmError::MissingName);
            }
            match store_get(&self.store, self.tokens[self.pc + 1].as_str()) {
                Some(v) => {
                    self.stack.push(v);
                    self.pc = self.pc + 2;
                    proof {
                        assert(self@ =~= spec_step(s0)->Ok_0);
                    }
                    Ok(())
                },
                None => Err(VmError::UnboundVariable),
            }
        } else if str_eq(self.tokens[self.pc].as_str(), "begin") {
            self.begins.push(self.pc);
            self.pc = self.pc + 1;
            proof {
                assert(self@ =~= spec_step(s0)->Ok_0);
            }
            Ok(())
        } else if str_eq(self.tokens[self.pc].as_str(), "repeat") {
            let n = self.stack.len();
            if n == 0 {
                return Err(VmError::StackUnderflow);
            }
            let cond = self.stack[n - 1].as_bool();
            if cond {
                if self.begins.len() == 0 {
                    return Err(VmError::RepeatWithoutBegin);
                }
                let _ = self.stack.pop();
                let top = self.begins[self.begins.len() - 1];
                self.pc = top + 1;
                proof {
                    assert(self@ =~= spec_step(s0)->Ok_0);
                }
                Ok(())
            } else {
                let _ = self.stack.pop();
                if self.begins.len() > 0 {
                    let _ = self.begins.pop();
                }
                self.pc = self.pc + 1;
                proof {
                    assert(self@ =~= spec_step(s0)->Ok_0);
                }
                Ok(())
            }
        } else if str_eq(self.tokens[self.pc].as_str(), "true") {
            self.stack.push(Value::Bool(true));
            self.pc = self.pc + 1;
            proof {
                assert(self@ =~= spec_step(s0)->Ok_0);
            }
            Ok(())
        } else if str_eq(self.tokens[self.pc].as_str(), "false") {
            self.stack.push(Value::Bool(false));
            self.pc = self.pc + 1;
            proof {
                assert(self@ =~= spec_step(s0)->Ok_0);
            }
            Ok(())
        } else {
            let tlen = self.tokens[self.pc].as_str().unicode_len();
            if tlen >= 2 && self.tokens[self.pc].as_str().get_char(0) == '"' && self.tokens[
                self.pc].as_str().get_char(tlen - 1) == '"' {
                let inner = self.tokens[self.pc].as_str().substring_char(1, tlen - 1);
                let owned = String::from_str(inner);
                self.stack.push(Value::Str(owned));
                self.pc = self.pc + 1;
                proof {
                    assert(self@ =~= spec_step(s0)->Ok_0);
                }
                Ok(())
            } else {
                match parse_i32(self.tokens[self.pc].as_str()) {
                    Some(k) => {
                        self.stack.push(Value::Int(k));
                        self.pc = self.pc + 1;
                        proof {
                            assert(self@ =~= spec_step(s0)->Ok_0);
                        }
                        Ok(())
                    },
                    None => Err(VmError::UnknownToken),
                }
            }
        }
    }
}

/// How a bounded run ended.
#[derive(Debug, Clone, Copy, PartialEq, Eq, Structural)]
pub enum RunStatus {
    /// The program counter passed the last token: normal completion.
    Finished,
    /// A fatal error stopped the run.
    Failed(VmError),
    /// The step budget ran out first.
    OutOfFuel,
}

/// What a state comes to within a step budget.
pub enum Flow {
    /// Still running when the budget ran out.
    Running,
    /// Normal completion.
    Done,
    /// Stopped by a fatal error.
    Failed(VmError),
}

/// The state after at most `n` transitions, and how it stands: the run is
/// done once the program counter leaves the tokens, and a failing step
/// leaves the state as it was before that step.
pub open spec fn spec_run(s: State, n: nat) -> (State, Flow)
    decreases n,
{
    if !s.running() {
        (s, Flow::Done)
    } else if n == 0 {
        (s, Flow::Running)
    } else {
        match spec_step(s) {
            Result::Ok(s2) => spec_run(s2, (n - 1) as nat),
            Result::Err(e) => (s, Flow::Failed(e)),
        }
    }
}

/// The status a flow reports.
pub open spec fn status_of(f: Flow) -> RunStatus {
    match f {
        Flow::Running => RunStatus::OutOfFuel,
        Flow::Done => RunStatus::Finished,
        Flow::Failed(e) => RunStatus::Failed(e),
    }
}

impl Machine {
    /// Run at most `fuel` transitions, stopping early on completion or on a
    /// fatal error.
    pub fn run_steps(&mut self, fuel: u64) -> (r: RunStatus)
        requires
            old(self).wf(),
        ensures
            final(self).wf(),
            final(self)@ == spec_run(old(self)@, fuel as nat).0,
            r == status_of(spec_run(old(self)@, fuel as nat).1),
    {
        let ghost s0 = self@;
        let mut used: u64 = 0;
        let mut outcome: Option<RunStatus> = None;
        while outcome.is_none() && used < fuel && self.pc < self.tokens.len()
            invariant
                self.wf(),
                used <= fuel,
                match outcome {
                    Option::None => spec_run(s0, fuel as nat) == spec_run(
                        self@,
                        (fuel - used) as nat,
                    ),
                    Option::Some(st) => spec_run(s0, fuel as nat).0 == self@ && st == status_of(
                        spec_run(s0, fuel as nat).1,
                    ) && (st is Finished || st matches RunStatus::Failed(_)),
                },
            decreases fuel - used, (if outcome.is_none() {
                1int
            } else {
                0int
            }),
        {
            match self.step() {
                Ok(()) => {
                    used = used + 1;
                },
                Err(e) => {
                    outcome = Some(RunStatus::Failed(e));
                },
            }
        }
        match outcome {
            Some(st) => st,
            None => {
                if self.pc < self.tokens.len() {
                    RunStatus::OutOfFuel
                } else {
                    RunStatus::Finished
                }
            },
        }
    }
}

/// Tokenize and run a whole program text within the given step budget,
/// yielding the print effects and how the run ended.
pub fn run_program(src: &str, fuel: u64) -> (r: (Vec<Printed>, RunStatus))
    ensures
        output_view(r.0@) == spec_run(init_state(tokenize(src@)), fuel as nat).0.output,
        r.1 == status_of(spec_run(init_state(tokenize(src@)), fuel as nat).1),
{
    let mut m = Machine::from_source(src);
    let status = m.run_steps(fuel);
    (m.output, status)
}

/// Stack discipline of `dup`: on a non-empty stack it pushes a copy of the
/// top value and leaves everything else alone; on an empty stack it is a
/// stack underflow.
pub proof fn lemma_dup(s: State)
    requires
        s.running(),
        s.tokens[s.pc] == "dup"@,
    ensures
        s.stack.len() > 0 ==> spec_step(s) == Result::<State, VmError>::Ok(
            State { stack: s.stack.push(s.stack.last()), pc: s.pc + 1, ..s },
        ),
        s.stack.len() == 0 ==> spec_step(s) == Result::<State, VmError>::Err(
            VmError::StackUnderflow,
        ),
{
    keyword_facts();
}

/// The division law: with integers `a` below `b` atop the stack, `/` pushes
/// the truncating quotient of `a` by `b`; a zero `b` is a division-by-zero
/// error, never a value; and the one quotient outside the 32-bit range is
/// an overflow error.
pub proof fn lemma_division(s: State, a: i32, b: i32)
    requires
        s.running(),
        s.tokens[s.pc] == "/"@,
        s.stack.len() >= 2,
        s.stack[s.stack.len() - 1] == ValueView::Int(b),
        s.stack[s.stack.len() - 2] == ValueView::Int(a),
    ensures
        b == 0 ==> spec_step(s) == Result::<State, VmError>::Err(VmError::DivisionByZero),
        b != 0 && !(a == i32::MIN && b == -1) ==> spec_step(s) == Result::<State, VmError>::Ok(
            State {
                stack: s.stack.drop_last().drop_last().push(
                    ValueView::Int(trunc_div(a as int, b as int) as i32),
                ),
                pc: s.pc + 1,
                ..s
            },
        ),
        a == i32::MIN && b == -1 ==> spec_step(s) == Result::<State, VmError>::Err(
            VmError::NumericOverflow,
        ),
{
    keyword_facts();
    assert(s.stack.drop_last().last() == s.stack[s.stack.len() - 2]);
    if b != 0 {
        crate::numeric::lemma_checked_div_trunc(a, b);
        let x = vstd::math::abs(a as int) as int;
        let d = vstd::math::abs(b as int) as int;
        vstd::arithmetic::div_mod::lemma_div_nonincreasing(x, d);
        vstd::arithmetic::div_mod::lemma_fundamental_div_mod(x, d);
        vstd::arithmetic::div_mod::lemma_div_pos_is_pos(x, d);
        vstd::arithmetic::div_mod::lemma_div_basics(x);
        assert(d >= 1);
        assert(x <= 0x8000_0000);
        if a == i32::MIN && b == -1 {
            assert(trunc_div(a as int, b as int) == 0x8000_0000);
        } else {
            assert(i32::MIN <= trunc_div(a as int, b as int) <= i32::MAX) by {
                if (a < 0) == (b < 0) && x / d >= 0x8000_0000 {
                    if d >= 2 {
                        vstd::arithmetic::div_mod::lemma_div_is_ordered_by_denominator(x, 2, d);
                        assert(x / 2 <= 0x4000_0000);
                        assert(false);
                    }
                    assert(d == 1);
                    assert(x / d == x);
                    assert(a == i32::MIN && b == -1);
                    assert(false);
                }
            }
        }
    }
}

/// The power law: with integers `a` below `b` atop the stack, `^` pushes
/// `a` raised to `b` read as an unsigned exponent whenever that power fits
/// the 32-bit range, and is an overflow error otherwise.
pub proof fn lemma_power(s: State, a: i32, b: i32)
    requires
        s.running(),
        s.tokens[s.pc] == "^"@,
        s.stack.len() >= 2,
        s.stack[s.stack.len() - 1] == ValueView::Int(b),
        s.stack[s.stack.len() - 2] == ValueView::Int(a),
    ensures
        i32::MIN <= vstd::arithmetic::power::pow(a as int, (b as u32) as nat) <= i32::MAX
            ==> spec_step(s) == Result::<State, VmError>::Ok(
            State {
                stack: s.stack.drop_last().drop_last().push(
                    ValueView::Int(
                        vstd::arithmetic::power::pow(a as int, (b as u32) as nat) as i32,
                    ),
                ),
                pc: s.pc + 1,
                ..s
            },
        ),
        !(i32::MIN <= vstd::arithmetic::power::pow(a as int, (b as u32) as nat) <= i32::MAX)
            ==> spec_step(s) == Result::<State, VmError>::Err(VmError::NumericOverflow),
{
    keyword_facts();
    assert(s.stack.drop_last().last() == s.stack[s.stack.len() - 2]);
    let e = (b as u32) as nat;
    match pow_checked_spec(a, e) {
        Option::Some(_) => {
            crate::numeric::lemma_pow_checked_exact(a, e);
        },
        Option::None => {
            crate::numeric::lemma_pow_checked_complete(a, e);
        },
    }
}

/// Skip correctness of `if`: a false condition moves the program counter
/// just past the `end` that the depth-counting scan finds, popping only the
/// condition; with no such `end` the program is rejected. A true condition
/// falls through.
pub proof fn lemma_if_step(s: State)
    requires
        s.running(),
        s.tokens[s.pc] == "if"@,
        s.stack.len() > 0,
    ensures
        truthy(s.stack.last()) ==> spec_step(s) == Result::<State, VmError>::Ok(
            State { stack: s.stack.drop_last(), pc: s.pc + 1, ..s },
        ),
        !truthy(s.stack.last()) ==> (find_end(s.tokens, s.pc + 1, 1) matches Some(j) ==> (
        spec_step(s) == Result::<State, VmError>::Ok(
            State { stack: s.stack.drop_last(), pc: j + 1, ..s },
        ) && s.tokens[j] == "end"@)),
        !truthy(s.stack.last()) && find_end(s.tokens, s.pc + 1, 1) is None ==> spec_step(s)
            == Result::<State, VmError>::Err(VmError::UnmatchedIf),
{
    keyword_facts();
    if !truthy(s.stack.last()) && find_end(s.tokens, s.pc + 1, 1) is Some {
        lemma_find_end_is_end(s.tokens, s.pc + 1, 1);
    }
}

proof fn lemma_prefix_refl(a: Seq<PrintedView>)
    ensures
        a.is_prefix_of(a),
{
    assert(a =~= a.subrange(0, a.len() as int));
}

proof fn lemma_prefix_push(a: Seq<PrintedView>, x: PrintedView)
    ensures
        a.is_prefix_of(a.push(x)),
{
    assert(a =~= a.push(x).subrange(0, a.len() as int));
}

proof fn lemma_prefix_trans(a: Seq<PrintedView>, b: Seq<PrintedView>, c: Seq<PrintedView>)
    requires
        a.is_prefix_of(b),
        b.is_prefix_of(c),
    ensures
        a.is_prefix_of(c),
{
    assert(a =~= c.subrange(0, a.len() as int));
}

/// A successful step only appends to the output.
pub proof fn lemma_step_extends_output(s: State)
    requires
        spec_step(s) is Ok,
    ensures
        spec_step(s) matches Ok(s2) ==> s.output.is_prefix_of(s2.output),
{
    let s2 = spec_step(s)->Ok_0;
    if s2.output == s.output {
        lemma_prefix_refl(s.output);
    } else {
        let ev = if s.stack.len() > 0 {
            PrintedView::Value(s.stack.last())
        } else {
            PrintedView::EmptyStack
        };
        assert(s2.output == s.output.push(ev));
        lemma_prefix_push(s.output, ev);
    }
}

/// Output is never rolled back: whatever a run prints stays printed, whether
/// the run completes, fails, or runs out of steps.
pub proof fn lemma_output_monotone(s: State, n: nat)
    ensures
        s.output.is_prefix_of(spec_run(s, n).0.output),
    decreases n,
{
    if s.running() && n > 0 {
        match spec_step(s) {
            Result::Ok(s2) => {
                lemma_step_extends_output(s);
                lemma_output_monotone(s2, (n - 1) as nat);
                lemma_prefix_trans(s.output, s2.output, spec_run(s, n).0.output);
            },
            Result::Err(_) => {
                lemma_prefix_refl(s.output);
            },
        }
    } else {
        lemma_prefix_refl(s.output);
    }
}

/// The keyword tokens are pairwise distinct character sequences.
proof fn keyword_facts()
    ensures
        "+"@ != "-"@ && "+"@ != "*"@ && "+"@ != "/"@ && "+"@ != "^"@,
        "-"@ != "*"@ && "-"@ != "/"@ && "-"@ != "^"@,
        "*"@ != "/"@ && "*"@ != "^"@,
        "/"@ != "^"@,
        "dup"@.len() == 3 && "if"@.len() == 2 && "end"@.len() == 3,
        "+"@.len() == 1 && "-"@.len() == 1 && "*"@.len() == 1 && "/"@.len() == 1 && "^"@.len()
            == 1,
        "."@.len() == 1 && "while"@.len() == 5,
        "dup"@ != "end"@,
        "+"@ != "."@ && "-"@ != "."@ && "*"@ != "."@ && "/"@ != "."@ && "^"@ != "."@,
        "+"@[0] == '+' && "-"@[0] == '-' && "*"@[0] == '*' && "/"@[0] == '/' && "^"@[0] == '^',
        "."@[0] == '.',
{
    reveal_strlit("+");
    reveal_strlit("-");
    reveal_strlit("*");
    reveal_strlit("/");
    reveal_strlit("^");
    reveal_strlit(".");
    reveal_strlit("dup");
    reveal_strlit("while");
    reveal_strlit("if");
    reveal_strlit("end");
    assert(("+"@)[0] == '+');
    assert(("-"@)[0] == '-');
    assert(("*"@)[0] == '*');
    assert(("/"@)[0] == '/');
    assert(("^"@)[0] == '^');
    assert(("."@)[0] == '.');
    assert(("dup"@)[0] == 'd');
    assert(("end"@)[0] == 'e');
    assert(("if"@)[0] == 'i');
    assert(("while"@)[0] == 'w');
}

} // verus!
