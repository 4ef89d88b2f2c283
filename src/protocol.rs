//! The request line grammar and the dispatcher's decisions.
//!
//! A request reads `call <name> sig:<signature> [<arg> ...]`. The signature
//! block starts at the third word, which carries the `sig:` prefix, and runs
//! up to the first word that holds `->`; where that word ends with the arrow,
//! the word after it is the return type and belongs to the block too, so
//! `sig:void -> int` and `sig:void ->int` mean the same. The block's words are
//! joined with single spaces; the words after it are the arguments.
//!
//! Each line is handled on its own, in three steps: `on_line` parses it,
//! `on_resolved` takes the outcome of looking the name up, and `on_returned`
//! renders the native result. Replies are the decimal result, or `ERR `
//! followed by the error's message; on the wire each reply ends with `\n`.
//!
//! The number of arguments is not checked against the signature, and the
//! declared types do not change the marshaling: every argument and the result
//! are 32-bit signed integers.
use vstd::prelude::*;

use crate::marshal::{decimal, i32_value, parse_arguments, render_i32};
use crate::signature::{
    arrow_at, fault_message, find_arrow, find_char, parse_signature, signature_of,
    FunctionSignature, SignatureError, SignatureFault, SignatureModel,
};
use crate::text::{chars_of, texts_of, word_ranges, words};

verus! {

/// Why a request got an error reply.
#[derive(Clone, Debug, PartialEq, Eq)]
pub enum DispatchError {
    /// The first word is not `call`.
    NotCall,
    /// The line holds no function name.
    MissingName,
    /// A signature block was opened but no word holds `->`.
    UnterminatedSignature,
    /// No `sig:` word follows the name.
    NoSignature,
    /// The signature text was rejected.
    Signature(SignatureError),
    /// The name holds a NUL character, which no symbol name can.
    InvalidName,
    /// The loader did not find the name; its diagnostic.
    Resolution(String),
    /// An argument is not a 32-bit signed integer.
    BadArgument,
}

/// The model of a `DispatchError`.
pub enum DispatchFault {
    NotCall,
    MissingName,
    UnterminatedSignature,
    NoSignature,
    Signature(SignatureFault),
    InvalidName,
    Resolution(Seq<char>),
    BadArgument,
}

impl View for DispatchError {
    type V = DispatchFault;

    open spec fn view(&self) -> DispatchFault {
        match self {
            DispatchError::NotCall => DispatchFault::NotCall,
            DispatchError::MissingName => DispatchFault::MissingName,
            DispatchError::UnterminatedSignature => DispatchFault::UnterminatedSignature,
            DispatchError::NoSignature => DispatchFault::NoSignature,
            DispatchError::Signature(e) => DispatchFault::Signature(e@),
            DispatchError::InvalidName => DispatchFault::InvalidName,
            DispatchError::Resolution(d) => DispatchFault::Resolution(d@),
            DispatchError::BadArgument => DispatchFault::BadArgument,
        }
    }
}

/// The message of an error.
pub open spec fn dispatch_message(f: DispatchFault) -> Seq<char> {
    match f {
        DispatchFault::NotCall => "Command must start with 'call'"@,
        DispatchFault::MissingName => "Missing function name"@,
        DispatchFault::UnterminatedSignature => "Malformed signature; no '->' found"@,
        DispatchFault::NoSignature => "No signature string provided"@,
        DispatchFault::Signature(s) => fault_message(s),
        DispatchFault::InvalidName => "Invalid function name"@,
        DispatchFault::Resolution(d) => d,
        DispatchFault::BadArgument => "Argument parsing error"@,
    }
}

/// The reply to a request that failed with `f`.
pub open spec fn error_reply(f: DispatchFault) -> Seq<char> {
    "ERR "@ + dispatch_message(f)
}

impl DispatchError {
    pub fn message(&self) -> (r: String)
        ensures
            r@ == dispatch_message(self@),
    {
        match self {
            DispatchError::NotCall => String::from_str("Command must start with 'call'"),
            DispatchError::MissingName => String::from_str("Missing function name"),
            DispatchError::UnterminatedSignature => String::from_str(
                "Malformed signature; no '->' found",
            ),
            DispatchError::NoSignature => String::from_str("No signature string provided"),
            DispatchError::Signature(e) => e.message(),
            DispatchError::InvalidName => String::from_str("Invalid function name"),
            DispatchError::Resolution(d) => d.clone(),
            DispatchError::BadArgument => String::from_str("Argument parsing error"),
        }
    }

    /// The reply line for this error, without its terminator.
    pub fn reply(&self) -> (r: String)
        ensures
            r@ == error_reply(self@),
    {
        let mut r = String::from_str("ERR ");
        let m = self.message();
        r.append(m.as_str());
        r
    }
}

/// A parsed request: whom to call, with which signature and which argument
/// words.
#[derive(Clone, Debug, PartialEq, Eq)]
pub struct CallRequest {
    pub name: String,
    pub signature: FunctionSignature,
    pub arguments: Vec<String>,
}

/// The model of a `CallRequest`.
pub struct RequestModel {
    pub name: Seq<char>,
    pub signature: SignatureModel,
    pub arguments: Seq<Seq<char>>,
}

impl View for CallRequest {
    type V = RequestModel;

    open spec fn view(&self) -> RequestModel {
        RequestModel {
            name: self.name@,
            signature: self.signature@,
            arguments: texts_of_strings(self.arguments@),
        }
    }
}

/// The text of each string.
pub open spec fn texts_of_strings(v: Seq<String>) -> Seq<Seq<char>> {
    v.map_values(|a: String| a@)
}

pub open spec fn call_word() -> Seq<char> {
    seq!['c', 'a', 'l', 'l']
}

/// The word carries the `sig:` prefix.
pub open spec fn opens_signature(w: Seq<char>) -> bool {
    w.len() >= 4 && w[0] == 's' && w[1] == 'i' && w[2] == 'g' && w[3] == ':'
}

pub open spec fn has_arrow(w: Seq<char>) -> bool {
    exists|i: int| #[trigger] arrow_at(w, i)
}

pub open spec fn ends_with_arrow(w: Seq<char>) -> bool {
    w.len() >= 2 && w[w.len() - 2] == '-' && w[w.len() - 1] == '>'
}

/// The `i`-th word as it enters the signature text: the third word loses
/// its `sig:` prefix.
pub open spec fn block_piece(ws: Seq<Seq<char>>, i: int) -> Seq<char> {
    if i == 2 {
        ws[2].subrange(4, ws[2].len() as int)
    } else {
        ws[i]
    }
}

/// Word `e` is the first word of the signature block that holds `->`.
pub open spec fn closes_block(ws: Seq<Seq<char>>, e: int) -> bool {
    2 <= e < ws.len() && has_arrow(block_piece(ws, e)) && forall|j: int|
        2 <= j < e ==> !has_arrow(#[trigger] block_piece(ws, j))
}

/// The last word of a block closed at `e`: the word after it where `e`
/// ends with the arrow.
pub open spec fn block_last(ws: Seq<Seq<char>>, e: int) -> int {
    if ends_with_arrow(block_piece(ws, e)) && e + 1 < ws.len() {
        e + 1
    } else {
        e
    }
}

/// `acc` followed by `piece`, with a space between unless `acc` is empty.
pub open spec fn spaced(acc: Seq<char>, piece: Seq<char>) -> Seq<char> {
    if acc.len() == 0 {
        piece
    } else {
        acc + seq![' '] + piece
    }
}

/// The signature text made of the block's pieces before word `n`.
pub open spec fn block_text(ws: Seq<Seq<char>>, n: int) -> Seq<char>
    decreases n,
{
    if n <= 2 {
        Seq::empty()
    } else {
        spaced(block_text(ws, n - 1), block_piece(ws, n - 1))
    }
}

/// What the request line `line` asks for, or why it is refused.
pub open spec fn request_of(line: Seq<char>) -> Result<RequestModel, DispatchFault> {
    let ws = words(line);
    if ws.len() == 0 || ws[0] != call_word() {
        Err(DispatchFault::NotCall)
    } else if ws.len() < 2 {
        Err(DispatchFault::MissingName)
    } else if ws.len() < 3 || !opens_signature(ws[2]) {
        Err(DispatchFault::NoSignature)
    } else if !exists|e: int| #[trigger] closes_block(ws, e) {
        Err(DispatchFault::UnterminatedSignature)
    } else {
        let e = choose|e: int| #[trigger] closes_block(ws, e);
        let last = block_last(ws, e);
        match signature_of(block_text(ws, last + 1)) {
            Err(f) => Err(DispatchFault::Signature(f)),
            Ok(sig) => if ws[1].contains('\0') {
                Err(DispatchFault::InvalidName)
            } else {
                Ok(
                    RequestModel {
                        name: ws[1],
                        signature: sig,
                        arguments: ws.subrange(last + 1, ws.len() as int),
                    },
                )
            },
        }
    }
}

/// Whether the word `w` holds `->`, and whether it ends with it.
fn holds_arrow(w: &str) -> (r: (bool, bool))
    ensures
        r.0 == has_arrow(w@),
        r.1 == ends_with_arrow(w@),
{
    let v = chars_of(w);
    let n = v.len();
    let found = find_arrow(&v, 0).is_some();
    let tail = n >= 2 && v[n - 2] == '-' && v[n - 1] == '>';
    (found, tail)
}

/// Parses one request line.
pub fn parse_request(line: &str) -> (r: Result<CallRequest, DispatchError>)
    ensures
        match r {
            Ok(req) => request_of(line@) == Ok::<RequestModel, DispatchFault>(req@),
            Err(e) => request_of(line@) == Err::<RequestModel, DispatchFault>(e@),
        },
{
    let v = chars_of(line);
    let ranges = word_ranges(&v);
    let ghost ws = words(line@);
    assert(ws == texts_of(v@, ranges@));
    let count = ranges.len();
    if count == 0 {
        return Err(DispatchError::NotCall);
    }
    let (a0, b0) = ranges[0];
    assert(ranges@[0].0 <= ranges@[0].1 <= v@.len());
    assert(ws[0] == v@.subrange(a0 as int, b0 as int));
    if !(b0 - a0 == 4 && v[a0] == 'c' && v[a0 + 1] == 'a' && v[a0 + 2] == 'l' && v[a0 + 3]
        == 'l') {
        assert(ws[0] != call_word()) by {
            if ws[0] == call_word() {
                assert(ws[0][0] == v@[a0 as int]);
                assert(ws[0][1] == v@[a0 + 1]);
                assert(ws[0][2] == v@[a0 + 2]);
                assert(ws[0][3] == v@[a0 + 3]);
            }
        }
        return Err(DispatchError::NotCall);
    }
    assert(ws[0] =~= call_word());
    if count < 2 {
        return Err(DispatchError::MissingName);
    }
    if count < 3 {
        return Err(DispatchError::NoSignature);
    }
    let (a2, b2) = ranges[2];
    assert(ranges@[2].0 <= ranges@[2].1 <= v@.len());
    assert(ws[2] == v@.subrange(a2 as int, b2 as int));
    if !(b2 - a2 >= 4 && v[a2] == 's' && v[a2 + 1] == 'i' && v[a2 + 2] == 'g' && v[a2 + 3]
        == ':') {
        return Err(DispatchError::NoSignature);
    }
    let mut text = String::new();
    let mut started: bool = false;
    let mut end: Option<usize> = None;
    let mut tail: bool = false;
    let mut i: usize = 2;
    while end.is_none() && i < count
        invariant
            2 <= i <= count,
            count == ranges@.len(),
            count == ws.len(),
            ws == texts_of(v@, ranges@),
            v@ == line@,
            opens_signature(ws[2]),
            crate::text::ranges_within(ranges@, v@.len()),
            text@ == block_text(ws, i as int),
            started <==> text@.len() > 0,
            match end {
                None => forall|j: int| 2 <= j < i ==> !has_arrow(#[trigger] block_piece(ws, j)),
                Some(e) => e + 1 == i && closes_block(ws, e as int) && tail == ends_with_arrow(
                    block_piece(ws, e as int),
                ),
            },
        decreases count - i,
    {
        let (a, b) = ranges[i];
        assert(ranges@[i as int].0 <= ranges@[i as int].1 <= v@.len());
        assert(ws[i as int] == v@.subrange(a as int, b as int));
        let from = if i == 2 {
            a + 4
        } else {
            a
        };
        let piece = line.substring_char(from, b);
        assert(piece@ =~= block_piece(ws, i as int));
        let ghost before = text@;
        assert(block_text(ws, i + 1) == spaced(before, piece@));
        if started {
            proof {
                reveal_strlit(" ");
            }
            text.append(" ");
            assert(" "@ =~= seq![' ']);
        }
        text.append(piece);
        started = started || from < b;
        assert(text@ =~= block_text(ws, i + 1));
        let (arrow, ends) = holds_arrow(piece);
        if arrow {
            end = Some(i);
            tail = ends;
        }
        i = i + 1;
    }
    let e = match end {
        None => {
            assert(!exists|e: int| #[trigger] closes_block(ws, e));
            return Err(DispatchError::UnterminatedSignature);
        },
        Some(e) => e,
    };
    assert(forall|e2: int| #[trigger] closes_block(ws, e2) ==> e2 == e);
    let last = if tail && e + 1 < count {
        let (a, b) = ranges[e + 1];
        assert(ranges@[e + 1].0 <= ranges@[e + 1].1 <= v@.len());
        assert(ws[e + 1] == v@.subrange(a as int, b as int));
        let piece = line.substring_char(a, b);
        assert(piece@ =~= block_piece(ws, e + 1));
        let ghost before = text@;
        assert(block_text(ws, e + 2) == spaced(before, piece@));
        if started {
            proof {
                reveal_strlit(" ");
            }
            text.append(" ");
            assert(" "@ =~= seq![' ']);
        }
        text.append(piece);
        assert(text@ =~= block_text(ws, e + 2));
        e + 1
    } else {
        e
    };
    assert(last as int == block_last(ws, e as int));
    let signature = match parse_signature(text.as_str()) {
        Ok(sig) => sig,
        Err(f) => {
            return Err(DispatchError::Signature(f));
        },
    };
    let (a1, b1) = ranges[1];
    assert(ranges@[1].0 <= ranges@[1].1 <= v@.len());
    assert(ws[1] == v@.subrange(a1 as int, b1 as int));
    if let Some(z) = find_char(&v, '\0', a1, b1) {
        assert(ws[1][z - a1] == '\0');
        return Err(DispatchError::InvalidName);
    }
    assert(!ws[1].contains('\0')) by {
        if ws[1].contains('\0') {
            let z = choose|z: int| 0 <= z < ws[1].len() && ws[1][z] == '\0';
            assert(v@[a1 + z] == '\0');
        }
    }
    let name = String::from_str(line.substring_char(a1, b1));
    let mut arguments: Vec<String> = Vec::new();
    let mut j: usize = last + 1;
    assert(texts_of_strings(arguments@) =~= ws.subrange(j as int, j as int));
    while j < count
        invariant
            last + 1 <= j <= count,
            count == ranges@.len(),
            count == ws.len(),
            ws == texts_of(v@, ranges@),
            v@ == line@,
            crate::text::ranges_within(ranges@, v@.len()),
            texts_of_strings(arguments@) == ws.subrange(last + 1, j as int),
            arguments@.len() == j - (last + 1),
        decreases count - j,
    {
        let (a, b) = ranges[j];
        assert(ranges@[j as int].0 <= ranges@[j as int].1 <= v@.len());
        assert(ws[j as int] == v@.subrange(a as int, b as int));
        let word = String::from_str(line.substring_char(a, b));
        let ghost before = arguments@;
        arguments.push(word);
        assert(arguments@ == before.push(word));
        assert(word@ == ws[j as int]);
        assert forall|k: int| 0 <= k < j + 1 - (last + 1) implies texts_of_strings(arguments@)[k]
            == ws.subrange(last + 1, j + 1)[k] by {
            if k < j - (last + 1) {
                assert(arguments@[k] == before[k]);
                assert(texts_of_strings(before)[k] == ws.subrange(last + 1, j as int)[k]);
            }
        }
        assert(texts_of_strings(arguments@) =~= ws.subrange(last + 1, j + 1));
        j = j + 1;
    }
    Ok(CallRequest { name, signature, arguments })
}

/// What to do after reading a request line.
#[derive(Debug, PartialEq, Eq)]
pub enum LineOutcome {
    /// Send this reply; nothing is called.
    Reply(String),
    /// Look the request's name up in the library, then call `on_resolved`.
    Resolve(CallRequest),
}

/// What to do once the name has been looked up.
#[derive(Debug, PartialEq, Eq)]
pub enum CallOutcome {
    /// Send this reply; nothing is called.
    Reply(String),
    /// Call the function with these integers, in order, then call
    /// `on_returned` with its result.
    Invoke(Vec<i32>),
}

/// The first step for a request line.
pub fn on_line(line: &str) -> (r: LineOutcome)
    ensures
        match r {
            LineOutcome::Reply(t) => match request_of(line@) {
                Err(f) => t@ == error_reply(f),
                Ok(_) => false,
            },
            LineOutcome::Resolve(req) => request_of(line@) == Ok::<RequestModel, DispatchFault>(
                req@,
            ),
        },
{
    match parse_request(line) {
        Ok(req) => LineOutcome::Resolve(req),
        Err(e) => LineOutcome::Reply(e.reply()),
    }
}

/// The step after the lookup of `request.name`: `resolution` is `Ok` where
/// the library exports the name, else the loader's diagnostic. The
/// arguments are read only once the name is found, and the call is made
/// only where every one of them is an `i32`.
pub fn on_resolved(request: &CallRequest, resolution: Result<(), String>) -> (r: CallOutcome)
    ensures
        match resolution {
            Err(d) => match r {
                CallOutcome::Reply(t) => t@ == error_reply(DispatchFault::Resolution(d@)),
                CallOutcome::Invoke(_) => false,
            },
            Ok(_) => match r {
                CallOutcome::Invoke(vals) => vals@.len() == request@.arguments.len() && forall|
                    i: int,
                |
                    0 <= i < vals@.len() ==> i32_value(#[trigger] request@.arguments[i]) == Some(
                        vals@[i],
                    ),
                CallOutcome::Reply(t) => t@ == error_reply(DispatchFault::BadArgument) && exists|
                    i: int,
                |
                    0 <= i < request@.arguments.len() && i32_value(
                        #[trigger] request@.arguments[i],
                    ) is None,
            },
        },
{
    match resolution {
        Err(d) => CallOutcome::Reply(DispatchError::Resolution(d).reply()),
        Ok(_) => match parse_arguments(&request.arguments) {
            Some(vals) => {
                assert forall|i: int| 0 <= i < vals@.len() implies i32_value(
                    #[trigger] request@.arguments[i],
                ) == Some(vals@[i]) by {
                    assert(request@.arguments[i] == request.arguments@[i]@);
                }
                CallOutcome::Invoke(vals)
            },
            None => {
                let ghost i = choose|i: int|
                    0 <= i < request.arguments@.len() && i32_value(
                        #[trigger] request.arguments@[i]@,
                    ) is None;
                assert(request@.arguments[i] == request.arguments@[i]@);
                CallOutcome::Reply(DispatchError::BadArgument.reply())
            },
        },
    }
}

/// The reply for the integer that the native function returned.
pub fn on_returned(value: i32) -> (r: String)
    ensures
        r@ == decimal(value as int),
{
    render_i32(value)
}

/// Whether what one read of a line brought is a whole request line. A read
/// that ends without `\n` met the end of the stream: the peer closed in the
/// middle of a line, which gets no reply.
pub fn is_complete_line(read: &str) -> (r: bool)
    ensures
        r == (read@.len() > 0 && read@.last() == '\n'),
{
    let v = chars_of(read);
    let n = v.len();
    n > 0 && v[n - 1] == '\n'
}

/// A reply as it goes on the wire: its text and a terminating `\n`.
pub fn wire_reply(reply: &str) -> (r: String)
    ensures
        r@ == reply@.push('\n'),
{
    let mut r = String::from_str(reply);
    proof {
        reveal_strlit("\n");
    }
    r.append("\n");
    assert(r@ =~= reply@.push('\n'));
    r
}

} // verus!
