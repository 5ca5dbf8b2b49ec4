//! The interface types of the Minisat SAT solver: its errors, its internal
//! state and its limits.

use vstd::prelude::*;
use vstd::string::*;
use crate::types::{Lit, Var};
use crate::solvers::SolverState;

verus! {

/// The character of the decimal digit `d`.
pub open spec fn digit_char(d: int) -> char {
    if d == 0 {
        '0'
    } else if d == 1 {
        '1'
    } else if d == 2 {
        '2'
    } else if d == 3 {
        '3'
    } else if d == 4 {
        '4'
    } else if d == 5 {
        '5'
    } else if d == 6 {
        '6'
    } else if d == 7 {
        '7'
    } else if d == 8 {
        '8'
    } else {
        '9'
    }
}

/// The decimal digits of `n`, most significant first, without leading zeros.
pub open spec fn decimal_nat(n: nat) -> Seq<char>
    decreases n,
{
    if n < 10 {
        seq![digit_char(n as int)]
    } else {
        decimal_nat(n / 10) + seq![digit_char((n % 10) as int)]
    }
}

/// The decimal notation of `v`, with a minus sign if it is negative.
pub open spec fn decimal(v: int) -> Seq<char> {
    if v < 0 {
        seq!['-'] + decimal_nat((-v) as nat)
    } else {
        decimal_nat(v as nat)
    }
}

/// The one-character text of the decimal digit `d`.
fn digit(d: u64) -> (s: &'static str)
    requires
        d < 10,
    ensures
        s@ == seq![digit_char(d as int)],
{
    proof {
        reveal_strlit("0");
        reveal_strlit("1");
        reveal_strlit("2");
        reveal_strlit("3");
        reveal_strlit("4");
        reveal_strlit("5");
        reveal_strlit("6");
        reveal_strlit("7");
        reveal_strlit("8");
        reveal_strlit("9");
    }
    match d {
        0 => "0",
        1 => "1",
        2 => "2",
        3 => "3",
        4 => "4",
        5 => "5",
        6 => "6",
        7 => "7",
        8 => "8",
        _ => "9",
    }
}

/// Appends the decimal digits of `n`.
fn push_decimal_nat(out: &mut String, n: u64)
    ensures
        final(out)@ == old(out)@ + decimal_nat(n as nat),
    decreases n,
{
    if n < 10 {
        out.append(digit(n));
        assert(out@ =~= old(out)@ + decimal_nat(n as nat));
    } else {
        push_decimal_nat(out, n / 10);
        out.append(digit(n % 10));
        assert(out@ =~= old(out)@ + decimal_nat(n as nat));
    }
}

/// Appends the decimal notation of `v`.
fn push_decimal(out: &mut String, v: i64)
    ensures
        final(out)@ == old(out)@ + decimal(v as int),
{
    if v < 0 {
        proof {
            reveal_strlit("-");
        }
        out.append("-");
        let m: u64 = if v == i64::MIN {
            9223372036854775808u64
        } else {
            (-v) as u64
        };
        push_decimal_nat(out, m);
        assert(out@ =~= old(out)@ + decimal(v as int));
    } else {
        push_decimal_nat(out, v as u64);
    }
}

/// The Minisat C API returned a value that its documentation rules out.
#[derive(Clone, Copy, Debug)]
pub struct InvalidApiReturn {
    api_call: &'static str,
    value: i32,
}

impl InvalidApiReturn {
    /// The error for `api_call` returning `value`.
    pub fn new(api_call: &'static str, value: i32) -> (e: Self)
        ensures
            e.api_call_view() == api_call@,
            e.value_view() == value,
    {
        InvalidApiReturn { api_call, value }
    }

    /// The name of the API call.
    pub closed spec fn api_call_view(self) -> Seq<char> {
        self.api_call@
    }

    /// The value it returned.
    pub closed spec fn value_view(self) -> i32 {
        self.value
    }

    /// The name of the API call.
    pub fn api_call(&self) -> (s: &'static str)
        ensures
            s@ == self.api_call_view(),
    {
        self.api_call
    }

    /// The value it returned.
    pub fn value(&self) -> (v: i32)
        ensures
            v == self.value_view(),
    {
        self.value
    }

    /// The message of the error:
    /// `minisat c-api returned an invalid value: <call> -> <value>`.
    pub fn description(&self) -> (s: String)
        ensures
            s@ == "minisat c-api returned an invalid value: "@ + self.api_call_view() + " -> "@ + decimal(
                self.value_view() as int,
            ),
    {
        let mut out = String::new();
        out.append("minisat c-api returned an invalid value: ");
        out.append(self.api_call);
        out.append(" -> ");
        push_decimal(&mut out, self.value as i64);
        out
    }
}

/// Minisat's simplification eliminated a variable that an assumption uses.
#[derive(Clone, Copy, Debug, PartialEq, Eq, Structural)]
pub struct AssumpEliminated(pub Var);

impl AssumpEliminated {
    /// The message of the error:
    /// `assumption variable x<index> has been eliminated by minisat simplification`.
    pub fn description(&self) -> (s: String)
        ensures
            s@ == "assumption variable x"@ + decimal(self.0.index() as int)
                + " has been eliminated by minisat simplification"@,
    {
        let mut out = String::new();
        out.append("assumption variable x");
        push_decimal(&mut out, self.0.idx() as i64);
        out.append(" has been eliminated by minisat simplification");
        out
    }
}

/// The state of the solver as Minisat keeps it: with the failed
/// assumptions of the last unsatisfiable call.
#[derive(Debug)]
pub enum InternalSolverState {
    /// The solver can still be configured
    Configuring,
    /// Clauses have been added since the last call to solve
    Input,
    /// The last call to solve found the instance satisfiable
    Sat,
    /// The last call to solve found the instance unsatisfiable under
    /// these failed assumptions
    Unsat(Vec<Lit>),
}

impl InternalSolverState {
    /// The state as the solver reports it, without the failed assumptions.
    pub fn to_external(&self) -> (s: SolverState)
        ensures
            s == match self {
                InternalSolverState::Configuring => SolverState::Configuring,
                InternalSolverState::Input => SolverState::Input,
                InternalSolverState::Sat => SolverState::Sat,
                InternalSolverState::Unsat(_) => SolverState::Unsat,
            },
    {
        match self {
            InternalSolverState::Configuring => SolverState::Configuring,
            InternalSolverState::Input => SolverState::Input,
            InternalSolverState::Sat => SolverState::Sat,
            InternalSolverState::Unsat(_) => SolverState::Unsat,
        }
    }
}

/// Possible Minisat limits
#[derive(Clone, Copy, Debug, PartialEq, Eq, Structural)]
pub enum Limit {
    /// No limits
    NoLimit,
    /// A limit on the number of conflicts
    Conflicts(i64),
    /// A limit on the number of propagations
    Propagations(i64),
}

impl Limit {
    /// The text of the limit: `none`, `conflicts (<n>)` or
    /// `propagations (<n>)`.
    pub open spec fn text(self) -> Seq<char> {
        match self {
            Limit::NoLimit => "none"@,
            Limit::Conflicts(v) => "conflicts ("@ + decimal(v as int) + ")"@,
            Limit::Propagations(v) => "propagations ("@ + decimal(v as int) + ")"@,
        }
    }

    /// The text of the limit: `none`, `conflicts (<n>)` or
    /// `propagations (<n>)`.
    pub fn to_string(&self) -> (s: String)
        ensures
            s@ == self.text(),
    {
        let mut out = String::new();
        match self {
            Limit::NoLimit => out.append("none"),
            Limit::Conflicts(v) => {
                out.append("conflicts (");
                push_decimal(&mut out, *v);
                out.append(")");
            },
            Limit::Propagations(v) => {
                out.append("propagations (");
                push_decimal(&mut out, *v);
                out.append(")");
            },
        }
        out
    }
}

} // verus!
