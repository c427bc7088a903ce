//! What one call to one provider came to, and how two such results compare.

use vstd::prelude::*;
use vstd::string::*;

verus! {

/// The four ways a single call can fail.
#[derive(Clone, Copy, Debug, PartialEq, Eq, Structural)]
pub enum FailureKind {
    /// The request never got an answer (connection, TLS, timeout).
    Transport,
    /// The provider answered with a status outside 2xx.
    Status(u16),
    /// The answer could not be read or decoded.
    Malformed,
    /// A well-formed answer that holds a JSON-RPC error object.
    Rpc,
}

/// The result of executing one call against one provider.
#[derive(Clone, Debug, PartialEq, Eq)]
pub enum Outcome {
    Success(String),
    Failure(FailureKind, String),
}

pub enum OutcomeModel {
    Success(Seq<char>),
    Failure(FailureKind, Seq<char>),
}

impl View for Outcome {
    type V = OutcomeModel;

    open spec fn view(&self) -> OutcomeModel {
        match self {
            Outcome::Success(b) => OutcomeModel::Success(b@),
            Outcome::Failure(k, m) => OutcomeModel::Failure(*k, m@),
        }
    }
}

/// The content of a list of outcomes.
pub open spec fn models(v: Seq<Outcome>) -> Seq<OutcomeModel> {
    v.map_values(|o: Outcome| o@)
}

/// Two outcomes agree when both succeeded with the same body, or both failed
/// with the same message.
pub open spec fn outcomes_agree(a: OutcomeModel, b: OutcomeModel) -> bool {
    match (a, b) {
        (OutcomeModel::Success(x), OutcomeModel::Success(y)) => x == y,
        (OutcomeModel::Failure(_, m), OutcomeModel::Failure(_, n)) => m == n,
        _ => false,
    }
}

/// The outcomes recorded for one request (one per call of a batch) agree as a
/// whole: same length, and each pair agrees.
pub open spec fn replies_agree(a: Seq<OutcomeModel>, b: Seq<OutcomeModel>) -> bool {
    &&& a.len() == b.len()
    &&& forall|i: int| 0 <= i < a.len() ==> outcomes_agree(#[trigger] a[i], b[i])
}

/// The message of a status failure is never empty and names the status.
pub proof fn lemma_status_message_names_status(status: u16, body: Seq<char>)
    ensures
        status_message(status, body).len() > 0,
        status_message(status, body).take(5) == seq!['H', 'T', 'T', 'P', ' '],
{
    assert(status_message(status, body).take(5) =~= seq!['H', 'T', 'T', 'P', ' ']);
}

/// What the transport handed back for one call, before classification.
pub enum RawReply {
    /// No response arrived; the message says why.
    Unreachable(String),
    /// A response arrived with this status. `body` is its text, or the reason
    /// it could not be read; `rpc_error` is the message of a JSON-RPC error
    /// object found in it.
    Response { status: u16, body: Result<String, String>, rpc_error: Option<String> },
}

pub open spec fn digit_char(d: nat) -> char {
    if d == 0 {
        '0'
    } else if d == 1 {
        '1'
    } else if d == 2 {
        '2'
    } else if d == 3 {
        '3'
    } else if d == 4 {
        '4'
    } else if d == 5 {
        '5'
    } else if d == 6 {
        '6'
    } else if d == 7 {
        '7'
    } else if d == 8 {
        '8'
    } else {
        '9'
    }
}

/// The decimal digits of `n`.
pub open spec fn decimal(n: nat) -> Seq<char>
    decreases n,
{
    if n < 10 {
        seq![digit_char(n)]
    } else {
        decimal(n / 10).push(digit_char(n % 10))
    }
}

/// The message of a status failure: `HTTP <status>`, then `: <body>` when
/// the body is not empty.
pub open spec fn status_message(status: u16, body: Seq<char>) -> Seq<char> {
    let head = seq!['H', 'T', 'T', 'P', ' '] + decimal(status as nat);
    if body.len() == 0 {
        head
    } else {
        head + seq![':', ' '] + body
    }
}

fn digit_text(d: u16) -> (r: String)
    requires
        d < 10,
    ensures
        r@ == seq![digit_char(d as nat)],
{
    let t: &str = if d == 0 {
        "0"
    } else if d == 1 {
        "1"
    } else if d == 2 {
        "2"
    } else if d == 3 {
        "3"
    } else if d == 4 {
        "4"
    } else if d == 5 {
        "5"
    } else if d == 6 {
        "6"
    } else if d == 7 {
        "7"
    } else if d == 8 {
        "8"
    } else {
        "9"
    };
    proof {
        reveal_strlit("0");
        reveal_strlit("1");
        reveal_strlit("2");
        reveal_strlit("3");
        reveal_strlit("4");
        reveal_strlit("5");
        reveal_strlit("6");
        reveal_strlit("7");
        reveal_strlit("8");
        reveal_strlit("9");
    }
    let r = String::from_str(t);
    assert(r@ =~= seq![digit_char(d as nat)]);
    r
}

fn decimal_text(n: u16) -> (r: String)
    ensures
        r@ == decimal(n as nat),
    decreases n,
{
    if n < 10 {
        digit_text(n)
    } else {
        let mut s = decimal_text(n / 10);
        let d = digit_text(n % 10);
        s.append(d.as_str());
        s
    }
}

fn status_text(status: u16, body: &str) -> (r: String)
    ensures
        r@ == status_message(status, body@),
{
    let mut m = String::from_str("HTTP ");
    proof {
        reveal_strlit("HTTP ");
        reveal_strlit(": ");
    }
    let digits = decimal_text(status);
    m.append(digits.as_str());
    if body.unicode_len() > 0 {
        m.append(": ");
        m.append(body);
    }
    assert(m@ =~= status_message(status, body@));
    m
}

pub open spec fn is_success_status(status: u16) -> bool {
    200 <= status <= 299
}

pub open spec fn classified(reply: RawReply) -> OutcomeModel {
    match reply {
        RawReply::Unreachable(m) => OutcomeModel::Failure(FailureKind::Transport, m@),
        RawReply::Response { status, body, rpc_error } => {
            if !is_success_status(status) {
                OutcomeModel::Failure(
                    FailureKind::Status(status),
                    status_message(
                        status,
                        match body {
                            Ok(b) => b@,
                            Err(e) => e@,
                        },
                    ),
                )
            } else {
                match body {
                    Err(e) => OutcomeModel::Failure(FailureKind::Malformed, e@),
                    Ok(b) => match rpc_error {
                        Some(m) => OutcomeModel::Failure(FailureKind::Rpc, m@),
                        None => OutcomeModel::Success(b@),
                    },
                }
            }
        },
    }
}

/// Turns what the transport returned into an outcome, with the failure
/// classified. A status failure's message names the status (`HTTP 503`,
/// followed by `: ` and the body when there is one).
pub fn classify(reply: RawReply) -> (r: Outcome)
    ensures
        r@ == classified(reply),
{
    match reply {
        RawReply::Unreachable(m) => Outcome::Failure(FailureKind::Transport, m),
        RawReply::Response { status, body, rpc_error } => {
            if status < 200 || status > 299 {
                match body {
                    Ok(b) => Outcome::Failure(FailureKind::Status(status), status_text(status, b.as_str())),
                    Err(e) => Outcome::Failure(FailureKind::Status(status), status_text(status, e.as_str())),
                }
            } else {
                match body {
                    Err(e) => Outcome::Failure(FailureKind::Malformed, e),
                    Ok(b) => match rpc_error {
                        Some(m) => Outcome::Failure(FailureKind::Rpc, m),
                        None => Outcome::Success(b),
                    },
                }
            }
        },
    }
}

impl Outcome {
    /// A copy with the same content.
    pub fn duplicate(&self) -> (r: Outcome)
        ensures
            r@ == self@,
    {
        match self {
            Outcome::Success(b) => Outcome::Success(b.clone()),
            Outcome::Failure(k, m) => Outcome::Failure(*k, m.clone()),
        }
    }

    /// Whether two outcomes agree in the sense of [`outcomes_agree`].
    pub fn agrees_with(&self, other: &Outcome) -> (r: bool)
        ensures
            r == outcomes_agree(self@, other@),
    {
        match (self, other) {
            (Outcome::Success(x), Outcome::Success(y)) => *x == *y,
            (Outcome::Failure(_, m), Outcome::Failure(_, n)) => *m == *n,
            _ => false,
        }
    }
}

/// Whether two recorded replies agree as one unit.
pub fn replies_match(a: &Vec<Outcome>, b: &Vec<Outcome>) -> (r: bool)
    ensures
        r == replies_agree(models(a@), models(b@)),
{
    if a.len() != b.len() {
        assert(models(a@).len() != models(b@).len());
        return false;
    }
    let mut i: usize = 0;
    while i < a.len()
        invariant
            a.len() == b.len(),
            0 <= i <= a.len(),
            forall|k: int| 0 <= k < i ==> outcomes_agree((#[trigger] a@[k])@, b@[k]@),
        decreases a.len() - i,
    {
        if !a[i].agrees_with(&b[i]) {
            assert(models(a@)[i as int] == a@[i as int]@);
            assert(models(b@)[i as int] == b@[i as int]@);
            return false;
        }
        i += 1;
    }
    assert forall|k: int| 0 <= k < a@.len() implies outcomes_agree(
        #[trigger] models(a@)[k],
        models(b@)[k],
    ) by {
        assert(outcomes_agree(a@[k]@, b@[k]@));
    }
    true
}

/// A copy of a list of outcomes with the same content.
pub fn duplicate_all(v: &Vec<Outcome>) -> (r: Vec<Outcome>)
    ensures
        models(r@) == models(v@),
{
    let mut r: Vec<Outcome> = Vec::new();
    let mut i: usize = 0;
    while i < v.len()
        invariant
            0 <= i <= v.len(),
            r@.len() == i,
            forall|k: int| 0 <= k < i ==> (#[trigger] r@[k])@ == v@[k]@,
        decreases v.len() - i,
    {
        r.push(v[i].duplicate());
        i += 1;
    }
    assert(models(r@) =~= models(v@));
    r
}

} // verus!
