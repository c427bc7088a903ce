//! Requests as read from the input: a single call, or a batch of calls that
//! shares one sequence id.

use vstd::prelude::*;

verus! {

/// One JSON-RPC call: its method name and the raw text of its params.
#[derive(Clone, Debug, PartialEq, Eq)]
pub struct RpcCall {
    pub method: String,
    pub params: Option<String>,
}

/// What a call is, as text.
pub struct CallModel {
    pub method: Seq<char>,
    pub params: Option<Seq<char>>,
}

impl View for RpcCall {
    type V = CallModel;

    open spec fn view(&self) -> CallModel {
        CallModel {
            method: self.method@,
            params: match self.params {
                Some(p) => Some(p@),
                None => None,
            },
        }
    }
}

/// The content of a list of calls.
pub open spec fn call_models(v: Seq<RpcCall>) -> Seq<CallModel> {
    v.map_values(|c: RpcCall| c@)
}

/// One line of input: decided to be a single call or a batch when it is parsed.
#[derive(Clone, Debug, PartialEq, Eq)]
pub enum Envelope {
    Single(RpcCall),
    Batch(Vec<RpcCall>),
}

pub enum EnvelopeModel {
    Single(CallModel),
    Batch(Seq<CallModel>),
}

impl View for Envelope {
    type V = EnvelopeModel;

    open spec fn view(&self) -> EnvelopeModel {
        match self {
            Envelope::Single(c) => EnvelopeModel::Single(c@),
            Envelope::Batch(cs) => EnvelopeModel::Batch(call_models(cs@)),
        }
    }
}

/// How many calls an envelope carries, and so how many outcomes it yields.
pub open spec fn call_count(e: EnvelopeModel) -> nat {
    match e {
        EnvelopeModel::Single(_) => 1,
        EnvelopeModel::Batch(cs) => cs.len(),
    }
}

fn same_text(a: &Option<String>, b: &Option<String>) -> (r: bool)
    ensures
        r == (match a {
            Some(x) => Some(x@),
            None => None::<Seq<char>>,
        } == match b {
            Some(y) => Some(y@),
            None => None::<Seq<char>>,
        }),
{
    match (a, b) {
        (Some(x), Some(y)) => *x == *y,
        (None, None) => true,
        _ => false,
    }
}

impl RpcCall {
    /// Structural equality: same method and same params.
    pub fn same_as(&self, other: &RpcCall) -> (r: bool)
        ensures
            r == (self@ == other@),
    {
        self.method == other.method && same_text(&self.params, &other.params)
    }
}

impl Envelope {
    /// Structural equality of two envelopes, call by call.
    pub fn same_as(&self, other: &Envelope) -> (r: bool)
        ensures
            r == (self@ == other@),
    {
        match (self, other) {
            (Envelope::Single(a), Envelope::Single(b)) => a.same_as(b),
            (Envelope::Batch(xs), Envelope::Batch(ys)) => {
                if xs.len() != ys.len() {
                    assert(call_models(xs@).len() != call_models(ys@).len());
                    return false;
                }
                let mut i: usize = 0;
                while i < xs.len()
                    invariant
                        self@ == EnvelopeModel::Batch(call_models(xs@)),
                        other@ == EnvelopeModel::Batch(call_models(ys@)),
                        xs.len() == ys.len(),
                        0 <= i <= xs.len(),
                        forall|k: int| 0 <= k < i ==> (#[trigger] xs@[k])@ == ys@[k]@,
                    decreases xs.len() - i,
                {
                    if !xs[i].same_as(&ys[i]) {
                        assert(call_models(xs@)[i as int] != call_models(ys@)[i as int]);
                        return false;
                    }
                    i += 1;
                }
                assert(call_models(xs@) =~= call_models(ys@));
                true
            },
            _ => false,
        }
    }

    /// The number of calls in this envelope.
    pub fn calls(&self) -> (r: usize)
        ensures
            r == call_count(self@),
    {
        match self {
            Envelope::Single(_) => 1,
            Envelope::Batch(cs) => cs.len(),
        }
    }
}

} // verus!
