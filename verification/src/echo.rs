//! The `echoCommands` endpoint: ECHONET Lite requests in JSON form, turned into
//! line-protocol commands, and the backend's responses turned back.
use vstd::prelude::*;
use vstd::string::StrSliceExecFns;
use crate::text::{
    concat, concat3, contains, lemma_split_char_nonempty, occurs_in, owned, split_char,
    split_char_spec, starts_with, is_prefix,
};

verus! {

broadcast use vstd::string::group_string_axioms;

/// A request or a response of the `echoCommands` endpoint.
#[derive(Debug)]
pub enum EchoCommand {
    Request { esv: String, operations: Vec<EchoOperation> },
    Response { esv: String, operations: Vec<EchoOperation> },
}

/// One property operation: its EPC and, where there is one, its EDT as
/// `0x`-prefixed bytes.
#[derive(Debug)]
pub struct EchoOperation {
    pub epc: String,
    pub edt: Option<Vec<String>>,
}

/// An operation, strings as character sequences.
pub struct OperationView {
    pub epc: Seq<char>,
    pub edt: Option<Seq<Seq<char>>>,
}

impl View for EchoOperation {
    type V = OperationView;

    open spec fn view(&self) -> OperationView {
        OperationView {
            epc: self.epc@,
            edt: match self.edt {
                Some(v) => Some(v@.map_values(|s: String| s@)),
                None => None,
            },
        }
    }
}

/// Operations as views.
pub open spec fn ops_view(v: Seq<EchoOperation>) -> Seq<OperationView> {
    v.map_values(|o: EchoOperation| o@)
}

/// The `Get` command for each operation: `device:epc` and a line break.
pub open spec fn get_commands(device: Seq<char>, ops: Seq<OperationView>) -> Seq<Seq<char>> {
    ops.map_values(|o: OperationView| device + ":"@ + o.epc + "\n"@)
}

/// The backend commands of a request: one `Get` per operation for a `Get`
/// request (`0x62`); no commands for other services or for responses. The
/// service of a request is recorded in `service`. `SetGet` (`0x6E`) is not
/// implemented and is not accepted.
pub fn generate_commands(device: String, service: &mut String, command: EchoCommand) -> (r: Option<
    Vec<String>,
>)
    requires
        !(command matches EchoCommand::Request { esv, .. } && esv@ == "0x6E"@),
    ensures
        match command {
            EchoCommand::Request { esv, operations } => final(service)@ == esv@ && if esv@ == "0x62"@ {
                r is Some && r->0@.map_values(|s: String| s@) == get_commands(
                    device@,
                    ops_view(operations@),
                )
            } else {
                r is None
            },
            EchoCommand::Response { .. } => r is None && final(service)@ == old(service)@,
        },
{
    match command {
        EchoCommand::Request { esv, operations } => {
            *service = esv.clone();
            proof {
                reveal_strlit("0x62");
            }
            if crate::text::str_eq(esv.as_str(), "0x62") {
                let mut v: Vec<String> = Vec::new();
                let mut i: usize = 0;
                while i < operations.len()
                    invariant
                        i <= operations.len(),
                        v@.len() == i,
                        forall|k: int|
                            0 <= k < i ==> (#[trigger] v@[k])@ == device@ + ":"@ + operations@[k].epc@
                                + "\n"@,
                    decreases operations.len() - i,
                {
                    let mut cmd = owned(device.as_str());
                    cmd = cmd.concat(":").concat(operations[i].epc.as_str()).concat("\n");
                    v.push(cmd);
                    i = i + 1;
                }
                assert(v@.map_values(|s: String| s@) =~= get_commands(device@, ops_view(operations@)));
                Some(v)
            } else {
                None
            }
        },
        EchoCommand::Response { .. } => None,
    }
}

/// `0x` and each pair of characters after the first two of the data (a trailing
/// odd character is dropped).
pub open spec fn edt_pairs(data: Seq<char>) -> Seq<Seq<char>> {
    let t = if data.len() >= 2 {
        data.skip(2)
    } else {
        Seq::empty()
    };
    Seq::new(t.len() / 2, |i: int| "0x"@ + t.subrange(2 * i, 2 * i + 2))
}

/// The operation that a response line reports: its EPC is the last `:`-field of
/// the second `,`-field, its EDT the pairs of the third `,`-field; `None` when
/// there is no second field.
pub open spec fn op_of(line: Seq<char>) -> Option<OperationView> {
    let tokens = split_char_spec(line, ',');
    if tokens.len() < 2 {
        None
    } else {
        Some(
            OperationView {
                epc: split_char_spec(tokens[1], ':').last(),
                edt: if tokens.len() >= 3 {
                    Some(edt_pairs(tokens[2]))
                } else {
                    None
                },
            },
        )
    }
}

/// A response line reports a failure: its first `,`-field contains `NG`.
pub open spec fn is_ng_line(line: Seq<char>) -> bool {
    occurs_in(split_char_spec(line, ',')[0], "NG"@)
}

fn edt_strings(data: &str) -> (r: Vec<String>)
    ensures
        r@.map_values(|s: String| s@) == edt_pairs(data@),
{
    let n = data.unicode_len();
    let ghost t = if data@.len() >= 2 {
        data@.skip(2)
    } else {
        Seq::<char>::empty()
    };
    let mut out: Vec<String> = Vec::new();
    if n < 2 {
        assert(out@.map_values(|s: String| s@) =~= edt_pairs(data@));
        return out;
    }
    let pairs = (n - 2) / 2;
    let mut i: usize = 0;
    while i < pairs
        invariant
            n == data@.len(),
            n >= 2,
            t == data@.skip(2),
            pairs == (n - 2) / 2,
            i <= pairs,
            out@.len() == i,
            forall|k: int|
                0 <= k < i ==> (#[trigger] out@[k])@ == "0x"@ + t.subrange(2 * k, 2 * k + 2),
        decreases pairs - i,
    {
        let piece = data.substring_char(2 + 2 * i, 4 + 2 * i);
        assert(piece@ =~= t.subrange(2 * i as int, 2 * i + 2));
        out.push(concat("0x", piece));
        i = i + 1;
    }
    assert(out@.map_values(|s: String| s@) =~= edt_pairs(data@));
    out
}

/// Calls `std::io::Error::new` with `ErrorKind::InvalidInput` and the message
/// "an op was malformed!". Nothing is stated of the value.
#[verifier::external_body]
fn malformed_op_error() -> std::io::Error {
    std::io::Error::new(std::io::ErrorKind::InvalidInput, "an op was malformed!")
}

#[verifier::external_type_specification]
#[verifier::external_body]
pub struct ExIoError(std::io::Error);

/// The response to a `Get` request made of the backend's response lines: one
/// operation per line (see [`op_of`]); the service is `0x52` (`Get_SNA`) when a
/// line reports a failure, `0x72` (`Get_Res`) otherwise. An error when a line
/// is malformed.
pub fn response_to_echo_result(_service: String, responses: Vec<String>) -> (r: Result<
    EchoCommand,
    std::io::Error,
>)
    ensures
        (forall|i: int| 0 <= i < responses@.len() ==> op_of((#[trigger] responses@[i])@) is Some)
            <==> r is Ok,
        r matches Ok(c) ==> c matches EchoCommand::Response { esv, operations } && ops_view(
            operations@,
        ) == responses@.map_values(|s: String| op_of(s@)->0) && (esv@ == if exists|i: int|
            0 <= i < responses@.len() && is_ng_line((#[trigger] responses@[i])@) {
            "0x52"@
        } else {
            "0x72"@
        }),
{
    let mut esv = owned("0x72");
    let mut ops: Vec<EchoOperation> = Vec::new();
    let mut any_ng = false;
    let mut i: usize = 0;
    while i < responses.len()
        invariant
            i <= responses.len(),
            ops@.len() == i,
            forall|k: int| 0 <= k < i ==> op_of((#[trigger] responses@[k])@) is Some,
            forall|k: int| 0 <= k < i ==> (#[trigger] ops@[k])@ == op_of(responses@[k]@)->0,
            any_ng == exists|k: int| 0 <= k < i && is_ng_line((#[trigger] responses@[k])@),
            esv@ == if any_ng {
                "0x52"@
            } else {
                "0x72"@
            },
        decreases responses.len() - i,
    {
        let line = responses[i].as_str();
        let tokens = split_char(line, ',');
        proof {
            lemma_split_char_nonempty(line@, ',');
            assert(tokens@.map_values(|p: &str| p@)[0] == tokens@[0]@);
        }
        if contains(tokens[0], "NG") {
            esv = owned("0x52");
            any_ng = true;
        }
        proof {
            assert(is_ng_line(responses@[i as int]@) == occurs_in(tokens@[0]@, "NG"@));
        }
        if tokens.len() < 2 {
            return Err(malformed_op_error());
        }
        let target = tokens[1];
        let pieces = split_char(target, ':');
        proof {
            lemma_split_char_nonempty(target@, ':');
            assert(tokens@.map_values(|p: &str| p@)[1] == tokens@[1]@);
            assert(pieces@.map_values(|p: &str| p@)[pieces@.len() - 1] == pieces@[pieces@.len() - 1]@);
        }
        let epc = owned(pieces[pieces.len() - 1]);
        let edt = if tokens.len() >= 3 {
            proof {
                assert(tokens@.map_values(|p: &str| p@)[2] == tokens@[2]@);
            }
            Some(edt_strings(tokens[2]))
        } else {
            None
        };
        ops.push(EchoOperation { epc, edt });
        i = i + 1;
    }
    assert(ops_view(ops@) =~= responses@.map_values(|s: String| op_of(s@)->0));
    Ok(EchoCommand::Response { esv, operations: ops })
}

/// The state of a run of `Get` commands: whether to go on, and the responses so far.
#[derive(Debug)]
pub struct EchoRun {
    pub keep_going: bool,
    pub results: Vec<String>,
}

impl EchoRun {
    /// A run that has seen no response yet.
    pub fn new() -> (r: EchoRun)
        ensures
            r.keep_going,
            r.results@.len() == 0,
    {
        EchoRun { keep_going: true, results: Vec::new() }
    }

    /// Takes the outcome of the next command (its response, or `None` when it
    /// could not be sent or read). Stops with `stop` when the previous response
    /// was not `OK`, with `transmition error` when there is no response;
    /// otherwise records the response and goes on while responses start with `OK`.
    pub fn feed(&mut self, outcome: Option<String>) -> (r: Result<(), String>)
        ensures
            !old(self).keep_going ==> (r matches Err(m) && m@ == "stop"@ && final(self).results@
                == old(self).results@ && !final(self).keep_going),
            old(self).keep_going && outcome is None ==> (r matches Err(m) && m@
                == "transmition error"@ && final(self).results@ == old(self).results@
                && final(self).keep_going),
            old(self).keep_going && outcome is Some ==> (r is Ok && final(self).results@ == old(
                self,
            ).results@.push(outcome->0) && final(self).keep_going == is_prefix(
                "OK"@,
                outcome->0@,
            )),
    {
        if !self.keep_going {
            return Err(owned("stop"));
        }
        match outcome {
            Some(res) => {
                self.keep_going = starts_with(res.as_str(), "OK");
                self.results.push(res);
                Ok(())
            },
            None => Err(owned("transmition error")),
        }
    }
}

} // verus!
