use dllbridge32::protocol::{
    is_complete_line, on_line, on_resolved, on_returned, parse_request, wire_reply, CallOutcome,
    CallRequest, DispatchError, LineOutcome,
};
use dllbridge32::signature::{SignatureError, SupportedType};

fn request_of(line: &str) -> CallRequest {
    match on_line(line) {
        LineOutcome::Resolve(req) => req,
        LineOutcome::Reply(text) => panic!("unexpected reply {}", text),
    }
}

fn reply_of(line: &str) -> String {
    match on_line(line) {
        LineOutcome::Reply(text) => text,
        LineOutcome::Resolve(req) => panic!("unexpected request {:?}", req),
    }
}

#[test]
fn hello_world() {
    let req = request_of("call helloworld sig:void -> int\n");
    assert_eq!(req.name, "helloworld");
    assert!(req.arguments.is_empty());
    assert_eq!(req.signature.return_type, SupportedType::Int);
    assert_eq!(on_resolved(&req, Ok(())), CallOutcome::Invoke(Vec::new()));
    assert_eq!(on_returned(42), "42");
}

#[test]
fn arrow_glued_to_return_type() {
    let req = request_of("call helloworld sig:void ->int\n");
    assert_eq!(req.signature.param_types, vec![SupportedType::Void]);
    assert_eq!(req.signature.return_type, SupportedType::Int);
    assert!(req.arguments.is_empty());
}

#[test]
fn add_gets_its_arguments_in_order() {
    let req = request_of("call add sig:int,int -> int 3 4\r\n");
    assert_eq!(req.name, "add");
    assert_eq!(req.arguments, vec!["3".to_string(), "4".to_string()]);
    assert_eq!(
        req.signature.param_types,
        vec![SupportedType::Int, SupportedType::Int]
    );
    assert_eq!(on_resolved(&req, Ok(())), CallOutcome::Invoke(vec![3, 4]));
    assert_eq!(on_returned(7), "7");
}

#[test]
fn bad_argument_is_never_passed_on() {
    let req = request_of("call add sig:int,int -> int 3 x");
    assert_eq!(
        on_resolved(&req, Ok(())),
        CallOutcome::Reply("ERR Argument parsing error".to_string())
    );
}

#[test]
fn argument_count_is_not_checked_against_signature() {
    let req = request_of("call add sig:int,int -> int 1 2 3");
    assert_eq!(on_resolved(&req, Ok(())), CallOutcome::Invoke(vec![1, 2, 3]));
}

#[test]
fn absent_symbol_gets_loader_diagnostic() {
    let req = request_of("call nosuch sig:void -> int");
    let diag = "undefined symbol: nosuch".to_string();
    assert_eq!(
        on_resolved(&req, Err(diag)),
        CallOutcome::Reply("ERR undefined symbol: nosuch".to_string())
    );
}

#[test]
fn resolution_error_comes_before_argument_error() {
    let req = request_of("call nosuch sig:int -> int x");
    assert_eq!(
        on_resolved(&req, Err("missing".to_string())),
        CallOutcome::Reply("ERR missing".to_string())
    );
}

#[test]
fn line_must_start_with_call() {
    assert_eq!(reply_of("run add sig:int->int 1"), "ERR Command must start with 'call'");
    assert_eq!(reply_of("\n"), "ERR Command must start with 'call'");
    assert_eq!(reply_of("CALL add sig:int->int"), "ERR Command must start with 'call'");
}

#[test]
fn name_is_required() {
    assert_eq!(reply_of("  call  \n"), "ERR Missing function name");
    assert_eq!(
        parse_request("call").err().unwrap(),
        DispatchError::MissingName
    );
}

#[test]
fn signature_is_required() {
    assert_eq!(reply_of("call add 3 4"), "ERR No signature string provided");
    assert_eq!(reply_of("call add"), "ERR No signature string provided");
}

#[test]
fn signature_block_without_arrow() {
    assert_eq!(
        reply_of("call add sig:int,int int 3 4"),
        "ERR Malformed signature; no '->' found"
    );
}

#[test]
fn signature_errors_are_reported() {
    assert_eq!(
        reply_of("call add sig:int,bool -> int 1"),
        "ERR Unsupported type: bool"
    );
    assert_eq!(
        parse_request("call add sig:int(cdecl->int").err().unwrap(),
        DispatchError::Signature(SignatureError::UnclosedParen)
    );
    assert_eq!(
        reply_of("call add sig:int->int->int"),
        "ERR Signature must contain '->'"
    );
}

#[test]
fn name_with_nul_is_invalid() {
    assert_eq!(reply_of("call a\0b sig:void->int"), "ERR Invalid function name");
}

#[test]
fn signature_words_are_joined_with_spaces() {
    let req = request_of("call f sig:int, int (stdcall) -> int 5");
    assert_eq!(req.signature.calling_convention, "stdcall");
    assert_eq!(
        req.signature.param_types,
        vec![SupportedType::Int, SupportedType::Int]
    );
    assert_eq!(req.arguments, vec!["5".to_string()]);
}

#[test]
fn bare_sig_prefix_adds_no_space() {
    let req = request_of("call f sig: int->int 9");
    assert_eq!(req.signature.param_types, vec![SupportedType::Int]);
    assert_eq!(req.arguments, vec!["9".to_string()]);
}

#[test]
fn negative_result_is_rendered() {
    assert_eq!(on_returned(-12), "-12");
}

#[test]
fn partial_line_gets_no_reply() {
    assert!(!is_complete_line("call helloworld sig:void -> int"));
    assert!(!is_complete_line(""));
    assert!(is_complete_line("call helloworld sig:void -> int\n"));
}

#[test]
fn replies_end_with_newline() {
    assert_eq!(wire_reply("42"), "42\n");
    assert_eq!(wire_reply("ERR x"), "ERR x\n");
}

#[test]
fn error_reply_prefixes_message() {
    assert_eq!(DispatchError::BadArgument.reply(), "ERR Argument parsing error");
    assert_eq!(
        DispatchError::Resolution("boom".to_string()).message(),
        "boom"
    );
}
