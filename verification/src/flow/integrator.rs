//! The three explicit integrators of the line exercise, and their names.

use vstd::prelude::*;
use vstd::string::StringExecFns;

verus! {

/// Forward Euler.
pub struct Euler;

/// The explicit midpoint rule.
pub struct Rk2;

/// Classical fourth-order Runge-Kutta.
///
/// `equal_weights` replaces the weights 1,2,2,1 by 1,1,1,1: the method still
/// converges, but only at second order.
pub struct Rk4 {
    pub equal_weights: bool,
}

impl Euler {
    /// The name the `--method` flag and the plots use.
    pub fn name(&self) -> (name: &'static str)
        ensures
            name@ == "euler"@,
            name@ == method_name(Method::Euler),
    {
        "euler"
    }
}

impl Rk2 {
    /// The name the `--method` flag and the plots use.
    pub fn name(&self) -> (name: &'static str)
        ensures
            name@ == "rk2"@,
            name@ == method_name(Method::Rk2),
    {
        "rk2"
    }
}

impl Rk4 {
    /// The classical 1,2,2,1 weights.
    pub fn classical() -> (rk4: Self)
        ensures
            !rk4.equal_weights,
    {
        Rk4 { equal_weights: false }
    }

    /// The name the plots use: `rk4`, or `rk4-equal` for the flattened weights.
    pub fn name(&self) -> (name: &'static str)
        ensures
            name@ == (if self.equal_weights {
                "rk4-equal"@
            } else {
                "rk4"@
            }),
            !self.equal_weights ==> name@ == method_name(Method::Rk4),
    {
        if self.equal_weights {
            "rk4-equal"
        } else {
            "rk4"
        }
    }
}

/// The integrators `fluid --method` accepts.
#[derive(Clone, Copy, Debug, PartialEq, Eq)]
pub enum Method {
    Euler,
    Rk2,
    Rk4,
}

/// The name of the integrator a method stands for: `Euler`'s, `Rk2`'s, and
/// the classical `Rk4`'s.
pub open spec fn method_name(method: Method) -> Seq<char> {
    match method {
        Method::Euler => "euler"@,
        Method::Rk2 => "rk2"@,
        Method::Rk4 => "rk4"@,
    }
}

/// No two methods share a name.
pub proof fn lemma_method_names_differ(a: Method, b: Method)
    ensures
        method_name(a) == method_name(b) <==> a == b,
{
    reveal_strlit("euler");
    reveal_strlit("rk2");
    reveal_strlit("rk4");
    assert("rk2"@.len() != "euler"@.len());
    assert("rk4"@.len() != "euler"@.len());
    assert("rk4"@[2] != "rk2"@[2]);
}

/// `{:?}` of a string: the string in double quotes, with its special
/// characters escaped.
pub uninterp spec fn debug_quoted(text: Seq<char>) -> Seq<char>;

/// A character that `{:?}` prints as itself inside the quotes.
pub open spec fn plain_char(c: char) -> bool {
    ('a' <= c <= 'z') || ('A' <= c <= 'Z') || ('0' <= c <= '9') || c == '-' || c == '_' || c == '.'
        || c == ' '
}

/// The refusal of a method name other than the three.
pub open spec fn unknown_method_message(name: Seq<char>) -> Seq<char> {
    "unknown method "@ + debug_quoted(name) + "; expected euler, rk2 or rk4"@
}

/// `format!("{name:?}")`: the name quoted as `{:?}` prints a string.
///
/// The result is a function of the name alone.  For a name made of letters,
/// digits, `-`, `_`, `.` and spaces, it is the name between double quotes;
/// for other names the escaping that `{:?}` applies is left unstated.
#[verifier::external_body]
fn quoted(name: &str) -> (text: String)
    ensures
        text@ == debug_quoted(name@),
        (forall|i: int| 0 <= i < name@.len() ==> plain_char(#[trigger] name@[i])) ==> text@ == "\""@
            + name@ + "\""@,
{
    format!("{name:?}")
}

impl Method {
    /// The method that `name` names: `euler`, `rk2` or `rk4`.
    pub fn parse(name: &str) -> (method: Result<Self, String>)
        ensures
            name@ == "euler"@ ==> method == Ok::<Method, String>(Method::Euler),
            name@ == "rk2"@ ==> method == Ok::<Method, String>(Method::Rk2),
            name@ == "rk4"@ ==> method == Ok::<Method, String>(Method::Rk4),
            method is Err <==> (name@ != "euler"@ && name@ != "rk2"@ && name@ != "rk4"@),
            method matches Ok(m) ==> method_name(m) == name@,
            method matches Err(message) ==> message@ == unknown_method_message(name@),
            method is Err && (forall|i: int| 0 <= i < name@.len() ==> plain_char(#[trigger] name@[i]))
                ==> method->Err_0@ == "unknown method \""@ + name@ + "\"; expected euler, rk2 or rk4"@,
    {
        proof {
            reveal_strlit("euler");
            reveal_strlit("rk2");
            reveal_strlit("rk4");
            assert("rk2"@.len() != "euler"@.len());
            assert("rk4"@.len() != "euler"@.len());
            assert("rk4"@[2] != "rk2"@[2]);
        }
        let owned = name.to_owned();
        if owned == "euler".to_owned() {
            Ok(Method::Euler)
        } else if owned == "rk2".to_owned() {
            Ok(Method::Rk2)
        } else if owned == "rk4".to_owned() {
            Ok(Method::Rk4)
        } else {
            let mut message = "unknown method ".to_owned();
            let text = quoted(name);
            message.append(text.as_str());
            message.append("; expected euler, rk2 or rk4");
            proof {
                reveal_strlit("unknown method ");
                reveal_strlit("; expected euler, rk2 or rk4");
                reveal_strlit("\"");
                reveal_strlit("unknown method \"");
                reveal_strlit("\"; expected euler, rk2 or rk4");
                if forall|i: int| 0 <= i < name@.len() ==> plain_char(#[trigger] name@[i]) {
                    assert(message@ =~= "unknown method \""@ + name@ + "\"; expected euler, rk2 or rk4"@);
                }
            }
            Err(message)
        }
    }
}

} // verus!
