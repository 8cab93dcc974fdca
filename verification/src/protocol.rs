//! Wire protocol: the response codec and the command parser/dispatcher.
//!
//! A request is one read chunk, parsed on its own (no newline framing): it is
//! split on ASCII whitespace into tokens, the first token is the command name,
//! the rest are arguments. A response is one line, `OK\n` or `ERR <CODE>\n`.

use vstd::prelude::*;

verus! {

/// The protocol's error codes, one per rejected request.
#[derive(Clone, Copy, PartialEq, Eq, Structural, Debug)]
pub enum ErrorCode {
    /// The chunk held no token at all.
    NilCmd,
    /// The command name matched no known command.
    UnkCmd,
    /// `REG` came without a nickname argument.
    NilNick,
    /// The connection already holds a registration.
    AlrReg,
    /// Another live connection already holds the nickname.
    Tkn,
}

/// One protocol response: success, or an error with its code.
#[derive(Clone, Copy, PartialEq, Eq, Structural, Debug)]
pub enum Response {
    Accepted,
    Rejected(ErrorCode),
}

/// The bytes of an error code's wire name.
pub open spec fn code_bytes(c: ErrorCode) -> Seq<u8> {
    match c {
        ErrorCode::NilCmd => seq![78u8, 73u8, 76u8, 95u8, 67u8, 77u8, 68u8],
        ErrorCode::UnkCmd => seq![85u8, 78u8, 75u8, 95u8, 67u8, 77u8, 68u8],
        ErrorCode::NilNick => seq![78u8, 73u8, 76u8, 95u8, 78u8, 73u8, 67u8, 75u8],
        ErrorCode::AlrReg => seq![65u8, 76u8, 82u8, 95u8, 82u8, 69u8, 71u8],
        ErrorCode::Tkn => seq![84u8, 75u8, 78u8],
    }
}

/// The bytes a response puts on the wire: `OK\n`, or `ERR <CODE>\n`.
pub open spec fn response_bytes(r: Response) -> Seq<u8> {
    match r {
        Response::Accepted => seq![79u8, 75u8, 10u8],
        Response::Rejected(c) => seq![69u8, 82u8, 82u8, 32u8] + code_bytes(c) + seq![10u8],
    }
}

/// Renders a response as the exact byte line the client receives.
pub fn render_response(r: &Response) -> (out: Vec<u8>)
    ensures
        out@ == response_bytes(*r),
{
    let mut v: Vec<u8> = Vec::new();
    match r {
        Response::Accepted => {
            v.push(79u8);
            v.push(75u8);
        }
        Response::Rejected(c) => {
            v.push(69u8);
            v.push(82u8);
            v.push(82u8);
            v.push(32u8);
            match c {
                ErrorCode::NilCmd => {
                    v.push(78u8);
                    v.push(73u8);
                    v.push(76u8);
                    v.push(95u8);
                    v.push(67u8);
                    v.push(77u8);
                    v.push(68u8);
                }
                ErrorCode::UnkCmd => {
                    v.push(85u8);
                    v.push(78u8);
                    v.push(75u8);
                    v.push(95u8);
                    v.push(67u8);
                    v.push(77u8);
                    v.push(68u8);
                }
                ErrorCode::NilNick => {
                    v.push(78u8);
                    v.push(73u8);
                    v.push(76u8);
                    v.push(95u8);
                    v.push(78u8);
                    v.push(73u8);
                    v.push(67u8);
                    v.push(75u8);
                }
                ErrorCode::AlrReg => {
                    v.push(65u8);
                    v.push(76u8);
                    v.push(82u8);
                    v.push(95u8);
                    v.push(82u8);
                    v.push(69u8);
                    v.push(71u8);
                }
                ErrorCode::Tkn => {
                    v.push(84u8);
                    v.push(75u8);
                    v.push(78u8);
                }
            }
        }
    }
    v.push(10u8);
    proof {
        assert(v@ =~= response_bytes(*r));
    }
    v
}

/// ASCII whitespace, the token separators: tab, line feed, vertical tab,
/// form feed, carriage return, space.
pub open spec fn is_ws(b: u8) -> bool {
    b == 32 || b == 9 || b == 10 || b == 11 || b == 12 || b == 13
}

/// Length of the leading run of non-whitespace bytes.
pub open spec fn token_end(s: Seq<u8>) -> nat
    decreases s.len(),
{
    if s.len() == 0 || is_ws(s[0]) {
        0
    } else {
        (1 + token_end(s.subrange(1, s.len() as int))) as nat
    }
}

proof fn lemma_token_end_bounds(s: Seq<u8>)
    ensures
        token_end(s) <= s.len(),
        s.len() > 0 && !is_ws(s[0]) ==> token_end(s) >= 1,
    decreases s.len(),
{
    if s.len() > 0 && !is_ws(s[0]) {
        lemma_token_end_bounds(s.subrange(1, s.len() as int));
    }
}

/// The whitespace-delimited tokens of a chunk, in order. A chunk is parsed
/// on its own: there is no newline framing, and no reassembly across reads.
pub open spec fn tokens(s: Seq<u8>) -> Seq<Seq<u8>>
    decreases s.len(),
    via tokens_decreases
{
    if s.len() == 0 {
        Seq::empty()
    } else if is_ws(s[0]) {
        tokens(s.subrange(1, s.len() as int))
    } else {
        seq![s.subrange(0, token_end(s) as int)] + tokens(
            s.subrange(token_end(s) as int, s.len() as int),
        )
    }
}

#[via_fn]
proof fn tokens_decreases(s: Seq<u8>) {
    if s.len() > 0 && !is_ws(s[0]) {
        lemma_token_end_bounds(s);
    }
}

proof fn lemma_token_end_run(s: Seq<u8>, m: int)
    requires
        0 <= m <= s.len(),
        forall|k: int| 0 <= k < m ==> !is_ws(s[k]),
        m == s.len() || is_ws(s[m]),
    ensures
        token_end(s) == m,
    decreases m,
{
    if m == 0 {
    } else {
        let rest = s.subrange(1, s.len() as int);
        assert(forall|k: int| 0 <= k < m - 1 ==> rest[k] == s[k + 1] && !is_ws(rest[k]));
        lemma_token_end_run(rest, m - 1);
    }
}

/// Whether a byte is a token separator.
pub fn byte_is_ws(b: u8) -> (r: bool)
    ensures
        r == is_ws(b),
{
    b == 32 || b == 9 || b == 10 || b == 11 || b == 12 || b == 13
}

/// Splits a chunk into its whitespace-delimited tokens.
pub fn tokenize(chunk: &[u8]) -> (ts: Vec<Vec<u8>>)
    ensures
        ts@.map_values(|t: Vec<u8>| t@) == tokens(chunk@),
{
    let ghost full = chunk@;
    let mut ts: Vec<Vec<u8>> = Vec::new();
    let mut i: usize = 0;
    proof {
        assert(full.subrange(0, full.len() as int) =~= full);
        assert(ts@.map_values(|t: Vec<u8>| t@) + tokens(full) =~= tokens(full));
    }
    while i < chunk.len()
        invariant
            i <= chunk@.len(),
            full == chunk@,
            tokens(full) == ts@.map_values(|t: Vec<u8>| t@) + tokens(
                full.subrange(i as int, full.len() as int),
            ),
        decreases chunk@.len() - i,
    {
        if byte_is_ws(chunk[i]) {
            proof {
                let rest = full.subrange(i as int, full.len() as int);
                assert(rest.subrange(1, rest.len() as int) =~= full.subrange(
                    i + 1 as int,
                    full.len() as int,
                ));
            }
            i += 1;
        } else {
            let start: usize = i;
            let mut j: usize = i + 1;
            while j < chunk.len() && !byte_is_ws(chunk[j])
                invariant
                    start < j <= chunk@.len(),
                    full == chunk@,
                    forall|k: int| start <= k < j ==> !is_ws(full[k]),
                    j == chunk@.len() || !is_ws(full[j - 1]),
                decreases chunk@.len() - j,
            {
                j += 1;
            }
            let mut tok: Vec<u8> = Vec::new();
            let mut k: usize = start;
            while k < j
                invariant
                    start <= k <= j <= chunk@.len(),
                    full == chunk@,
                    tok@ == full.subrange(start as int, k as int),
                decreases j - k,
            {
                tok.push(chunk[k]);
                proof {
                    assert(tok@ =~= full.subrange(start as int, k + 1 as int));
                }
                k += 1;
            }
            proof {
                let rest = full.subrange(start as int, full.len() as int);
                assert(forall|t: int| 0 <= t < j - start ==> rest[t] == full[start + t]);
                lemma_token_end_run(rest, j - start);
                assert(rest.subrange(0, (j - start) as int) =~= full.subrange(
                    start as int,
                    j as int,
                ));
                assert(rest.subrange((j - start) as int, rest.len() as int) =~= full.subrange(
                    j as int,
                    full.len() as int,
                ));
                assert(tokens(rest) == seq![tok@] + tokens(
                    full.subrange(j as int, full.len() as int),
                ));
                let old_views = ts@.map_values(|t: Vec<u8>| t@);
                assert((ts@.push(tok)).map_values(|t: Vec<u8>| t@) =~= old_views.push(tok@));
                assert(old_views + (seq![tok@] + tokens(full.subrange(j as int, full.len() as int)))
                    =~= old_views.push(tok@) + tokens(full.subrange(j as int, full.len() as int)));
            }
            ts.push(tok);
            i = j;
        }
    }
    proof {
        assert(full.subrange(i as int, full.len() as int) =~= Seq::<u8>::empty());
        assert(ts@.map_values(|t: Vec<u8>| t@) + tokens(full.subrange(i as int, full.len() as int))
            =~= ts@.map_values(|t: Vec<u8>| t@));
    }
    ts
}

/// A UTF-8 continuation byte.
pub open spec fn is_cont(b: u8) -> bool {
    0x80 <= b <= 0xBF
}

/// The chunk is well-formed UTF-8: every request must decode as text before
/// it is dispatched, and a chunk that does not is fatal to that read.
pub open spec fn valid_utf8(s: Seq<u8>) -> bool
    decreases s.len(),
{
    if s.len() == 0 {
        true
    } else {
        let b0 = s[0];
        if b0 < 0x80 {
            valid_utf8(s.subrange(1, s.len() as int))
        } else if 0xC2 <= b0 <= 0xDF {
            s.len() >= 2 && is_cont(s[1]) && valid_utf8(s.subrange(2, s.len() as int))
        } else if b0 == 0xE0 {
            s.len() >= 3 && 0xA0 <= s[1] <= 0xBF && is_cont(s[2]) && valid_utf8(
                s.subrange(3, s.len() as int),
            )
        } else if 0xE1 <= b0 <= 0xEC || b0 == 0xEE || b0 == 0xEF {
            s.len() >= 3 && is_cont(s[1]) && is_cont(s[2]) && valid_utf8(
                s.subrange(3, s.len() as int),
            )
        } else if b0 == 0xED {
            s.len() >= 3 && 0x80 <= s[1] <= 0x9F && is_cont(s[2]) && valid_utf8(
                s.subrange(3, s.len() as int),
            )
        } else if b0 == 0xF0 {
            s.len() >= 4 && 0x90 <= s[1] <= 0xBF && is_cont(s[2]) && is_cont(s[3]) && valid_utf8(
                s.subrange(4, s.len() as int),
            )
        } else if 0xF1 <= b0 <= 0xF3 {
            s.len() >= 4 && is_cont(s[1]) && is_cont(s[2]) && is_cont(s[3]) && valid_utf8(
                s.subrange(4, s.len() as int),
            )
        } else if b0 == 0xF4 {
            s.len() >= 4 && 0x80 <= s[1] <= 0x8F && is_cont(s[2]) && is_cont(s[3]) && valid_utf8(
                s.subrange(4, s.len() as int),
            )
        } else {
            false
        }
    }
}

/// Whether a byte is a UTF-8 continuation byte.
fn byte_is_cont(b: u8) -> (r: bool)
    ensures
        r == is_cont(b),
{
    0x80 <= b && b <= 0xBF
}

/// Checks that a chunk is well-formed UTF-8.
pub fn is_valid_utf8(s: &[u8]) -> (r: bool)
    ensures
        r == valid_utf8(s@),
{
    let ghost full = s@;
    let mut i: usize = 0;
    proof {
        assert(full.subrange(0, full.len() as int) =~= full);
    }
    while i < s.len()
        invariant
            i <= s@.len(),
            full == s@,
            valid_utf8(full) == valid_utf8(full.subrange(i as int, full.len() as int)),
        decreases s@.len() - i,
    {
        let ghost rest = full.subrange(i as int, full.len() as int);
        let b0 = s[i];
        // how many bytes this sequence takes, and what its tail must look like
        let step: usize = if b0 < 0x80 {
            1
        } else if 0xC2 <= b0 && b0 <= 0xDF {
            if i + 1 >= s.len() || !byte_is_cont(s[i + 1]) {
                return false;
            }
            2
        } else if b0 == 0xE0 {
            if s.len() - i < 3 || !(0xA0 <= s[i + 1] && s[i + 1] <= 0xBF) || !byte_is_cont(
                s[i + 2],
            ) {
                return false;
            }
            3
        } else if (0xE1 <= b0 && b0 <= 0xEC) || b0 == 0xEE || b0 == 0xEF {
            if s.len() - i < 3 || !byte_is_cont(s[i + 1]) || !byte_is_cont(s[i + 2]) {
                return false;
            }
            3
        } else if b0 == 0xED {
            if s.len() - i < 3 || !(0x80 <= s[i + 1] && s[i + 1] <= 0x9F) || !byte_is_cont(
                s[i + 2],
            ) {
                return false;
            }
            3
        } else if b0 == 0xF0 {
            if s.len() - i < 4 || !(0x90 <= s[i + 1] && s[i + 1] <= 0xBF) || !byte_is_cont(
                s[i + 2],
            ) || !byte_is_cont(s[i + 3]) {
                return false;
            }
            4
        } else if 0xF1 <= b0 && b0 <= 0xF3 {
            if s.len() - i < 4 || !byte_is_cont(s[i + 1]) || !byte_is_cont(s[i + 2])
                || !byte_is_cont(s[i + 3]) {
                return false;
            }
            4
        } else if b0 == 0xF4 {
            if s.len() - i < 4 || !(0x80 <= s[i + 1] && s[i + 1] <= 0x8F) || !byte_is_cont(
                s[i + 2],
            ) || !byte_is_cont(s[i + 3]) {
                return false;
            }
            4
        } else {
            return false;
        };
        proof {
            assert(rest[0] == full[i as int]);
            assert(forall|j: int| 0 <= j < rest.len() ==> rest[j] == full[i + j]);
            assert(rest.subrange(step as int, rest.len() as int) =~= full.subrange(
                i + step,
                full.len() as int,
            ));
            assert(valid_utf8(rest) == valid_utf8(full.subrange(i + step, full.len() as int)));
        }
        i += step;
    }
    proof {
        assert(full.subrange(i as int, full.len() as int) =~= Seq::<u8>::empty());
    }
    true
}

/// The command name bytes of `REG`.
pub open spec fn reg_name() -> Seq<u8> {
    seq![82u8, 69u8, 71u8]
}

/// One parsed request, as the dispatcher sees it.
pub enum Command {
    /// The chunk held no token.
    Empty,
    /// The command name matched no known command.
    Unknown,
    /// `REG` came without a nickname argument.
    MissingNick,
    /// `REG <nickname>`: register under the given nickname.
    Reg(Vec<u8>),
}

/// The mathematical form of a parsed request.
pub enum CommandModel {
    Empty,
    Unknown,
    MissingNick,
    Reg(Seq<u8>),
}

impl Command {
    /// The mathematical command this value stands for.
    pub open spec fn model(&self) -> CommandModel {
        match self {
            Command::Empty => CommandModel::Empty,
            Command::Unknown => CommandModel::Unknown,
            Command::MissingNick => CommandModel::MissingNick,
            Command::Reg(nick) => CommandModel::Reg(nick@),
        }
    }
}

/// What a chunk parses to: no token is an empty command; a first token `REG`
/// asks to register under the second token, missing-nickname if there is
/// none; any other first token is unknown. Tokens past the ones used are
/// ignored.
pub open spec fn parse_model(s: Seq<u8>) -> CommandModel {
    let ts = tokens(s);
    if ts.len() == 0 {
        CommandModel::Empty
    } else if ts[0] == reg_name() {
        if ts.len() >= 2 {
            CommandModel::Reg(ts[1])
        } else {
            CommandModel::MissingNick
        }
    } else {
        CommandModel::Unknown
    }
}

/// Parses one read chunk into the command it carries.
pub fn parse_command(chunk: &[u8]) -> (c: Command)
    ensures
        c.model() == parse_model(chunk@),
{
    let mut ts = tokenize(chunk);
    proof {
        assert(forall|k: int|
            0 <= k < ts@.len() ==> #[trigger] tokens(chunk@)[k] == ts@[k]@);
    }
    if ts.len() == 0 {
        return Command::Empty;
    }
    let first = &ts[0];
    if first.len() == 3 && first[0] == 82 && first[1] == 69 && first[2] == 71 {
        proof {
            assert(ts@[0]@ =~= reg_name());
        }
        if ts.len() >= 2 {
            let nick = ts.remove(1);
            Command::Reg(nick)
        } else {
            Command::MissingNick
        }
    } else {
        proof {
            assert(ts@[0]@ != reg_name());
        }
        Command::Unknown
    }
}

} // verus!
