//! The signature grammar: `<params>[(<convention>)] -> <returnType>`.
//!
//! A signature is parsed fresh for each request and never checked against the
//! native symbol's real type.
use vstd::prelude::*;

use crate::text::{
    chars_of, is_space, lemma_pieces_append, lemma_pieces_without_sep, piece_ranges, pieces,
    texts_of, trim, trim_end, trim_start, trim_range,
};

verus! {

/// The types a signature may name.
#[derive(Clone, Copy, Debug, PartialEq, Eq, Structural)]
pub enum SupportedType {
    Int,
    Float,
    Char,
    Void,
}

/// The code of `c` with an ASCII capital mapped to its small letter.
pub open spec fn folded_code(c: char) -> u32 {
    let u = c as u32;
    if 0x41 <= u && u <= 0x5A {
        (u + 32) as u32
    } else {
        u
    }
}

/// `t` spells `word` (written in small letters) in any mix of cases.
pub open spec fn equals_ignoring_case(t: Seq<char>, word: Seq<char>) -> bool {
    t.len() == word.len() && forall|i: int| 0 <= i < t.len() ==> folded_code(#[trigger] t[i])
        == word[i] as u32
}

/// The type that the text `t` names, matched case-insensitively.
pub open spec fn type_named(t: Seq<char>) -> Option<SupportedType> {
    if equals_ignoring_case(t, seq!['i', 'n', 't']) {
        Some(SupportedType::Int)
    } else if equals_ignoring_case(t, seq!['f', 'l', 'o', 'a', 't']) {
        Some(SupportedType::Float)
    } else if equals_ignoring_case(t, seq!['c', 'h', 'a', 'r']) {
        Some(SupportedType::Char)
    } else if equals_ignoring_case(t, seq!['v', 'o', 'i', 'd']) {
        Some(SupportedType::Void)
    } else {
        None
    }
}

/// Why a signature text was rejected.
#[derive(Clone, Debug, PartialEq, Eq)]
pub enum SignatureError {
    /// The text does not hold exactly one `->`.
    MissingArrow,
    /// A `(` is not followed by a `)`.
    UnclosedParen,
    /// A type token, trimmed, that names no supported type.
    UnsupportedType(String),
}

/// The model of a `SignatureError`.
pub enum SignatureFault {
    MissingArrow,
    UnclosedParen,
    UnsupportedType(Seq<char>),
}

impl View for SignatureError {
    type V = SignatureFault;

    open spec fn view(&self) -> SignatureFault {
        match self {
            SignatureError::MissingArrow => SignatureFault::MissingArrow,
            SignatureError::UnclosedParen => SignatureFault::UnclosedParen,
            SignatureError::UnsupportedType(t) => SignatureFault::UnsupportedType(t@),
        }
    }
}

/// The text of the error message for `f`.
pub open spec fn fault_message(f: SignatureFault) -> Seq<char> {
    match f {
        SignatureFault::MissingArrow => "Signature must contain '->'"@,
        SignatureFault::UnclosedParen => "Malformed signature: missing closing parenthesis"@,
        SignatureFault::UnsupportedType(t) => "Unsupported type: "@ + t,
    }
}

impl SignatureError {
    pub fn message(&self) -> (r: String)
        ensures
            r@ == fault_message(self@),
    {
        match self {
            SignatureError::MissingArrow => String::from_str("Signature must contain '->'"),
            SignatureError::UnclosedParen => String::from_str(
                "Malformed signature: missing closing parenthesis",
            ),
            SignatureError::UnsupportedType(t) => {
                let mut m = String::from_str("Unsupported type: ");
                m.append(t.as_str());
                m
            },
        }
    }
}

/// Whether `c` is the small letter `w` or its capital.
fn folds_to(c: char, w: char) -> (r: bool)
    requires
        0x61 <= w as u32 <= 0x7A,
    ensures
        r == (folded_code(c) == w as u32),
{
    let u = c as u32;
    if 0x41 <= u && u <= 0x5A {
        u + 32 == w as u32
    } else {
        u == w as u32
    }
}

/// The type that `v[lo..hi]` names.
fn type_in(v: &Vec<char>, lo: usize, hi: usize) -> (r: Option<SupportedType>)
    requires
        lo <= hi <= v.len(),
    ensures
        r == type_named(v@.subrange(lo as int, hi as int)),
{
    let ghost t = v@.subrange(lo as int, hi as int);
    let n = hi - lo;
    if n == 3 && folds_to(v[lo], 'i') && folds_to(v[lo + 1], 'n') && folds_to(v[lo + 2], 't') {
        assert(t[0] == v@[lo as int] && t[1] == v@[lo + 1] && t[2] == v@[lo + 2]);
        return Some(SupportedType::Int);
    }
    if n == 5 && folds_to(v[lo], 'f') && folds_to(v[lo + 1], 'l') && folds_to(v[lo + 2], 'o')
        && folds_to(v[lo + 3], 'a') && folds_to(v[lo + 4], 't') {
        assert(t[0] == v@[lo as int] && t[1] == v@[lo + 1] && t[2] == v@[lo + 2] && t[3]
            == v@[lo + 3] && t[4] == v@[lo + 4]);
        assert(!equals_ignoring_case(t, seq!['i', 'n', 't']));
        return Some(SupportedType::Float);
    }
    if n == 4 && folds_to(v[lo], 'c') && folds_to(v[lo + 1], 'h') && folds_to(v[lo + 2], 'a')
        && folds_to(v[lo + 3], 'r') {
        assert(t[0] == v@[lo as int] && t[1] == v@[lo + 1] && t[2] == v@[lo + 2] && t[3]
            == v@[lo + 3]);
        assert(!equals_ignoring_case(t, seq!['i', 'n', 't']));
        assert(!equals_ignoring_case(t, seq!['f', 'l', 'o', 'a', 't']));
        return Some(SupportedType::Char);
    }
    if n == 4 && folds_to(v[lo], 'v') && folds_to(v[lo + 1], 'o') && folds_to(v[lo + 2], 'i')
        && folds_to(v[lo + 3], 'd') {
        assert(t[0] == v@[lo as int] && t[1] == v@[lo + 1] && t[2] == v@[lo + 2] && t[3]
            == v@[lo + 3]);
        assert(!equals_ignoring_case(t, seq!['i', 'n', 't']));
        assert(!equals_ignoring_case(t, seq!['f', 'l', 'o', 'a', 't']));
        assert(!equals_ignoring_case(t, seq!['c', 'h', 'a', 'r'])) by {
            assert(folded_code(t[0]) != 'c' as u32);
        }
        return Some(SupportedType::Void);
    }
    proof {
        if n == 3 {
            if equals_ignoring_case(t, seq!['i', 'n', 't']) {
                assert(folded_code(t[0]) == 'i' as u32);
                assert(folded_code(t[1]) == 'n' as u32);
                assert(folded_code(t[2]) == 't' as u32);
            }
        }
        if n == 5 {
            if equals_ignoring_case(t, seq!['f', 'l', 'o', 'a', 't']) {
                assert(folded_code(t[0]) == 'f' as u32);
                assert(folded_code(t[1]) == 'l' as u32);
                assert(folded_code(t[2]) == 'o' as u32);
                assert(folded_code(t[3]) == 'a' as u32);
                assert(folded_code(t[4]) == 't' as u32);
            }
        }
        if n == 4 {
            if equals_ignoring_case(t, seq!['c', 'h', 'a', 'r']) {
                assert(folded_code(t[0]) == 'c' as u32);
                assert(folded_code(t[1]) == 'h' as u32);
                assert(folded_code(t[2]) == 'a' as u32);
                assert(folded_code(t[3]) == 'r' as u32);
            }
            if equals_ignoring_case(t, seq!['v', 'o', 'i', 'd']) {
                assert(folded_code(t[0]) == 'v' as u32);
                assert(folded_code(t[1]) == 'o' as u32);
                assert(folded_code(t[2]) == 'i' as u32);
                assert(folded_code(t[3]) == 'd' as u32);
            }
        }
    }
    None
}

impl SupportedType {
    /// The type that `s` names, matched case-insensitively; an error naming
    /// `s` where it names none.
    pub fn from_str(s: &str) -> (r: Result<SupportedType, SignatureError>)
        ensures
            match r {
                Ok(t) => type_named(s@) == Some(t),
                Err(e) => type_named(s@) is None && e@ == SignatureFault::UnsupportedType(s@),
            },
    {
        let v = chars_of(s);
        assert(v@.subrange(0, v@.len() as int) =~= v@);
        match type_in(&v, 0, v.len()) {
            Some(t) => Ok(t),
            None => Err(SignatureError::UnsupportedType(String::from_str(s))),
        }
    }
}

/// A parsed signature. Its types are recorded, not enforced: every call is
/// marshaled with 32-bit integers whatever they say.
#[derive(Clone, Debug, PartialEq, Eq)]
pub struct FunctionSignature {
    /// The text between the parentheses, or `cdecl` where there are none.
    pub calling_convention: String,
    /// The parameter types, in argument order.
    pub param_types: Vec<SupportedType>,
    pub return_type: SupportedType,
}

/// The model of a `FunctionSignature`.
pub struct SignatureModel {
    pub convention: Seq<char>,
    pub params: Seq<SupportedType>,
    pub ret: SupportedType,
}

impl View for FunctionSignature {
    type V = SignatureModel;

    open spec fn view(&self) -> SignatureModel {
        SignatureModel {
            convention: self.calling_convention@,
            params: self.param_types@,
            ret: self.return_type,
        }
    }
}

/// An arrow `->` starts at index `i` of `s`.
pub open spec fn arrow_at(s: Seq<char>, i: int) -> bool {
    0 <= i && i + 1 < s.len() && s[i] == '-' && s[i + 1] == '>'
}

/// The only arrow of `s` starts at `k`.
pub open spec fn sole_arrow_at(s: Seq<char>, k: int) -> bool {
    arrow_at(s, k) && forall|j: int| #[trigger] arrow_at(s, j) ==> j == k
}

/// `i` is the first index at or after `from` where `s` holds `c`.
pub open spec fn first_at(s: Seq<char>, c: char, from: int, i: int) -> bool {
    0 <= from <= i < s.len() && s[i] == c && forall|j: int| from <= j < i ==> s[j] != c
}

/// The text left of the arrow split into the parameter text and the calling
/// convention: the parameters are what stands before the first `(`, the
/// convention what stands between it and the first `)` after it.
pub open spec fn split_convention(left: Seq<char>) -> Result<
    (Seq<char>, Seq<char>),
    SignatureFault,
> {
    if exists|o: int| #[trigger] first_at(left, '(', 0, o) {
        let o = choose|o: int| #[trigger] first_at(left, '(', 0, o);
        let from = o + 1;
        if exists|c: int| #[trigger] first_at(left, ')', from, c) {
            let c = choose|c: int| #[trigger] first_at(left, ')', from, c);
            Ok((left.subrange(0, o), left.subrange(from, c)))
        } else {
            Err(SignatureFault::UnclosedParen)
        }
    } else {
        Ok((left, "cdecl"@))
    }
}

/// The types of the comma-separated parameter pieces, each trimmed; a piece
/// that is blank once trimmed is skipped. The first unknown type is the
/// error.
pub open spec fn param_types_of(ps: Seq<Seq<char>>) -> Result<Seq<SupportedType>, SignatureFault>
    decreases ps.len(),
{
    if ps.len() == 0 {
        Ok(Seq::empty())
    } else {
        match param_types_of(ps.drop_last()) {
            Err(f) => Err(f),
            Ok(ts) => {
                let t = trim(ps.last());
                if t.len() == 0 {
                    Ok(ts)
                } else {
                    match type_named(t) {
                        Some(ty) => Ok(ts.push(ty)),
                        None => Err(SignatureFault::UnsupportedType(t)),
                    }
                }
            },
        }
    }
}

/// What parsing the signature text `s` gives.
pub open spec fn signature_of(s: Seq<char>) -> Result<SignatureModel, SignatureFault> {
    if exists|k: int| #[trigger] sole_arrow_at(s, k) {
        let k = choose|k: int| #[trigger] sole_arrow_at(s, k);
        let right = trim(s.subrange(k + 2, s.len() as int));
        match split_convention(s.subrange(0, k)) {
            Err(f) => Err(f),
            Ok((params, convention)) => match param_types_of(pieces(params, ',')) {
                Err(f) => Err(f),
                Ok(ts) => match type_named(right) {
                    Some(ret) => Ok(SignatureModel { convention, params: ts, ret }),
                    None => Err(SignatureFault::UnsupportedType(right)),
                },
            },
        }
    } else {
        Err(SignatureFault::MissingArrow)
    }
}

/// An error on a prefix of the pieces is the error of every longer prefix.
proof fn lemma_error_persists(ps: Seq<Seq<char>>, i: int, n: int)
    requires
        0 <= i <= n <= ps.len(),
        param_types_of(ps.subrange(0, i)) is Err,
    ensures
        param_types_of(ps.subrange(0, n)) == param_types_of(ps.subrange(0, i)),
    decreases n - i,
{
    if n > i {
        lemma_error_persists(ps, i, n - 1);
        assert(ps.subrange(0, n).drop_last() =~= ps.subrange(0, n - 1));
    }
}

/// The first arrow of `v` at or after `from`.
pub(crate) fn find_arrow(v: &Vec<char>, from: usize) -> (r: Option<usize>)
    requires
        from <= v.len(),
    ensures
        match r {
            Some(k) => from <= k && arrow_at(v@, k as int) && forall|j: int|
                from <= j < k ==> !#[trigger] arrow_at(v@, j),
            None => forall|j: int| from <= j ==> !#[trigger] arrow_at(v@, j),
        },
{
    let mut i: usize = from;
    while v.len() - i >= 2
        invariant
            from <= i <= v.len(),
            forall|j: int| from <= j < i ==> !#[trigger] arrow_at(v@, j),
        decreases v.len() - i,
    {
        if v[i] == '-' && v[i + 1] == '>' {
            return Some(i);
        }
        i = i + 1;
    }
    None
}

/// The first index in `from..to` where `v` holds `c`.
pub(crate) fn find_char(v: &Vec<char>, c: char, from: usize, to: usize) -> (r: Option<usize>)
    requires
        from <= to <= v.len(),
    ensures
        match r {
            Some(i) => from <= i < to && v@[i as int] == c && forall|j: int|
                from <= j < i ==> v@[j] != c,
            None => forall|j: int| from <= j < to ==> v@[j] != c,
        },
{
    let mut i: usize = from;
    while i < to
        invariant
            from <= i <= to <= v.len(),
            forall|j: int| from <= j < i ==> v@[j] != c,
        decreases to - i,
    {
        if v[i] == c {
            return Some(i);
        }
        i = i + 1;
    }
    None
}

/// Splits `params` on commas and resolves each non-blank trimmed piece.
fn parse_params(params: &str) -> (r: Result<Vec<SupportedType>, SignatureError>)
    ensures
        match r {
            Ok(ts) => param_types_of(pieces(params@, ',')) == Ok::<
                Seq<SupportedType>,
                SignatureFault,
            >(ts@),
            Err(e) => param_types_of(pieces(params@, ',')) == Err::<
                Seq<SupportedType>,
                SignatureFault,
            >(e@),
        },
{
    let v = chars_of(params);
    let ranges = piece_ranges(&v, ',');
    let ghost ps = texts_of(v@, ranges@);
    let mut out: Vec<SupportedType> = Vec::new();
    let mut i: usize = 0;
    assert(ps.subrange(0, 0) =~= Seq::<Seq<char>>::empty());
    while i < ranges.len()
        invariant
            i <= ranges.len(),
            ps == texts_of(v@, ranges@),
            ps == pieces(params@, ','),
            v@ == params@,
            crate::text::ranges_within(ranges@, v@.len()),
            param_types_of(ps.subrange(0, i as int)) == Ok::<Seq<SupportedType>, SignatureFault>(
                out@,
            ),
        decreases ranges.len() - i,
    {
        let (lo, hi) = ranges[i];
        assert(ranges@[i as int].0 <= ranges@[i as int].1 <= v@.len());
        let (a, b) = trim_range(&v, lo, hi);
        let ghost pre = ps.subrange(0, i as int);
        let ghost cur = ps.subrange(0, i + 1);
        assert(cur.drop_last() =~= pre);
        assert(cur.last() == v@.subrange(lo as int, hi as int));
        if a < b {
            match type_in(&v, a, b) {
                Some(t) => {
                    out.push(t);
                },
                None => {
                    let name = params.substring_char(a, b);
                    let e = SignatureError::UnsupportedType(String::from_str(name));
                    proof {
                        assert(param_types_of(cur) == Err::<Seq<SupportedType>, SignatureFault>(
                            e@,
                        ));
                        lemma_error_persists(ps, i + 1, ps.len() as int);
                        assert(ps.subrange(0, ps.len() as int) =~= ps);
                    }
                    return Err(e);
                },
            }
        }
        i = i + 1;
    }
    assert(ps.subrange(0, ps.len() as int) =~= ps);
    Ok(out)
}

/// Parses a signature text of the form `<params>[(<convention>)] -> <ret>`.
///
/// The text must hold exactly one `->`. Left of it, a `(` must be followed
/// by a `)`; what lies between is the calling convention, and what precedes
/// the `(` is the parameter list. Parameters are separated by commas; blank
/// pieces are skipped, so `void -> int` and ` -> int` both declare no
/// parameter types beyond the names given.
pub fn parse_signature(signature: &str) -> (r: Result<FunctionSignature, SignatureError>)
    ensures
        match r {
            Ok(sig) => signature_of(signature@) == Ok::<SignatureModel, SignatureFault>(sig@),
            Err(e) => signature_of(signature@) == Err::<SignatureModel, SignatureFault>(e@),
        },
{
    let v = chars_of(signature);
    let k = match find_arrow(&v, 0) {
        Some(k) => k,
        None => {
            return Err(SignatureError::MissingArrow);
        },
    };
    let n = v.len();
    assert(k + 1 < n);
    if let Some(k2) = find_arrow(&v, k + 1) {
        assert(!sole_arrow_at(v@, k as int) && !sole_arrow_at(v@, k2 as int));
        return Err(SignatureError::MissingArrow);
    }
    assert(sole_arrow_at(v@, k as int));
    let ghost left = v@.subrange(0, k as int);
    let (params, convention) = match find_char(&v, '(', 0, k) {
        Some(o) => {
            assert(first_at(left, '(', 0, o as int));
            let ghost from = o + 1;
            match find_char(&v, ')', o + 1, k) {
                Some(c) => {
                    assert(first_at(left, ')', from, c as int));
                    let p = signature.substring_char(0, o);
                    let conv = String::from_str(signature.substring_char(o + 1, c));
                    proof {
                        let oo = choose|oo: int| #[trigger] first_at(left, '(', 0, oo);
                        assert(oo == o);
                        let cc = choose|cc: int| #[trigger] first_at(left, ')', from, cc);
                        assert(cc == c);
                        assert(left.subrange(0, o as int) =~= p@);
                        assert(left.subrange(from, c as int) =~= conv@);
                    }
                    (p, conv)
                },
                None => {
                    assert(!exists|c: int| #[trigger] first_at(left, ')', from, c));
                    return Err(SignatureError::UnclosedParen);
                },
            }
        },
        None => {
            assert(!exists|o: int| #[trigger] first_at(left, '(', 0, o));
            let p = signature.substring_char(0, k);
            assert(left =~= p@);
            (p, String::from_str("cdecl"))
        },
    };
    assert(split_convention(left) == Ok::<(Seq<char>, Seq<char>), SignatureFault>(
        (params@, convention@),
    ));
    let param_types = match parse_params(params) {
        Ok(ts) => ts,
        Err(e) => {
            return Err(e);
        },
    };
    let rv = chars_of(signature.substring_char(k + 2, v.len()));
    let (a, b) = trim_range(&rv, 0, rv.len());
    assert(rv@.subrange(0, rv@.len() as int) =~= rv@);
    match type_in(&rv, a, b) {
        Some(return_type) => Ok(FunctionSignature { calling_convention: convention, param_types, return_type }),
        None => Err(SignatureError::UnsupportedType(String::from_str(signature.substring_char(k + 2, v.len()).substring_char(a, b)))),
    }
}

/// The name of `t` in small letters.
pub open spec fn type_word(t: SupportedType) -> Seq<char> {
    match t {
        SupportedType::Int => seq!['i', 'n', 't'],
        SupportedType::Float => seq!['f', 'l', 'o', 'a', 't'],
        SupportedType::Char => seq!['c', 'h', 'a', 'r'],
        SupportedType::Void => seq!['v', 'o', 'i', 'd'],
    }
}

/// The names of `ts` separated by commas.
pub open spec fn comma_list(ts: Seq<SupportedType>) -> Seq<char>
    decreases ts.len(),
{
    if ts.len() == 0 {
        Seq::empty()
    } else if ts.len() == 1 {
        type_word(ts[0])
    } else {
        comma_list(ts.drop_last()) + seq![','] + type_word(ts.last())
    }
}

/// The text `T1,...,Tn(conv) -> Tr`.
pub open spec fn written_signature(
    ts: Seq<SupportedType>,
    conv: Seq<char>,
    ret: SupportedType,
) -> Seq<char> {
    comma_list(ts) + seq!['('] + conv + seq![')', ' ', '-', '>', ' '] + type_word(ret)
}

/// A letter of a type name.
pub open spec fn name_letter(c: char) -> bool {
    0x61 <= c as u32 && c as u32 <= 0x7A
}

proof fn lemma_type_word(t: SupportedType)
    ensures
        type_word(t).len() > 0,
        forall|i: int| 0 <= i < type_word(t).len() ==> name_letter(#[trigger] type_word(t)[i]),
        type_named(type_word(t)) == Some(t),
        trim(type_word(t)) == type_word(t),
{
    let w = type_word(t);
    assert(!equals_ignoring_case(seq!['f', 'l', 'o', 'a', 't'], seq!['i', 'n', 't']));
    assert(!equals_ignoring_case(seq!['c', 'h', 'a', 'r'], seq!['i', 'n', 't']));
    assert(!equals_ignoring_case(seq!['v', 'o', 'i', 'd'], seq!['i', 'n', 't']));
    assert(!equals_ignoring_case(seq!['c', 'h', 'a', 'r'], seq!['f', 'l', 'o', 'a', 't']));
    assert(!equals_ignoring_case(seq!['v', 'o', 'i', 'd'], seq!['f', 'l', 'o', 'a', 't']));
    assert(!equals_ignoring_case(seq!['v', 'o', 'i', 'd'], seq!['c', 'h', 'a', 'r'])) by {
        assert(folded_code(seq!['v', 'o', 'i', 'd'][0]) != seq!['c', 'h', 'a', 'r'][0] as u32);
    }
    assert(!is_space(w[0]));
    assert(!is_space(w.last()));
}

proof fn lemma_comma_list(ts: Seq<SupportedType>)
    ensures
        forall|i: int|
            0 <= i < comma_list(ts).len() ==> name_letter(#[trigger] comma_list(ts)[i])
                || comma_list(ts)[i] == ',',
        ts.len() > 0 ==> pieces(comma_list(ts), ',') == ts.map_values(|t| type_word(t)),
        ts.len() > 0 ==> param_types_of(pieces(comma_list(ts), ',')) == Ok::<
            Seq<SupportedType>,
            SignatureFault,
        >(ts),
    decreases ts.len(),
{
    if ts.len() == 1 {
        let w = type_word(ts[0]);
        lemma_type_word(ts[0]);
        assert(!w.contains(',')) by {
            if w.contains(',') {
                let i = choose|i: int| 0 <= i < w.len() && w[i] == ',';
                assert(name_letter(w[i]));
            }
        }
        lemma_pieces_without_sep(w, ',');
        assert(ts.map_values(|t| type_word(t)) =~= seq![w]);
        let ps = seq![w];
        assert(ps.drop_last() =~= Seq::<Seq<char>>::empty());
        assert(ps.last() == w);
        assert(param_types_of(ps.drop_last()) == Ok::<Seq<SupportedType>, SignatureFault>(
            Seq::empty(),
        ));
        assert(Seq::<SupportedType>::empty().push(ts[0]) =~= ts);
        assert(param_types_of(ps) == Ok::<Seq<SupportedType>, SignatureFault>(ts));
    } else if ts.len() > 1 {
        let d = ts.drop_last();
        let w = type_word(ts.last());
        lemma_comma_list(d);
        lemma_type_word(ts.last());
        assert(!w.contains(',')) by {
            if w.contains(',') {
                let i = choose|i: int| 0 <= i < w.len() && w[i] == ',';
                assert(name_letter(w[i]));
            }
        }
        lemma_pieces_append(comma_list(d), w, ',');
        assert(ts.map_values(|t| type_word(t)) =~= d.map_values(|t| type_word(t)).push(w));
        let ps = pieces(comma_list(ts), ',');
        assert(ps.drop_last() =~= pieces(comma_list(d), ','));
        assert(ps.last() == w);
        assert(ps.len() > 0);
        assert(d.push(ts.last()) =~= ts);
        assert(param_types_of(ps) == Ok::<Seq<SupportedType>, SignatureFault>(ts));
        let c = comma_list(ts);
        assert forall|i: int| 0 <= i < c.len() implies name_letter(#[trigger] c[i]) || c[i]
            == ',' by {
            let cd = comma_list(d);
            if i < cd.len() {
                assert(c[i] == cd[i]);
            } else if i > cd.len() {
                assert(c[i] == w[i - cd.len() - 1]);
            }
        }
    }
}

/// A signature written `T1,...,Tn(conv) -> Tr`, with each `Ti` and `Tr` a
/// supported type's name and a convention holding neither `)` nor `->`,
/// parses to that convention, those parameter types in order, and that
/// return type.
pub proof fn lemma_written_signature_parses(
    ts: Seq<SupportedType>,
    conv: Seq<char>,
    ret: SupportedType,
)
    requires
        !conv.contains(')'),
        forall|i: int| !#[trigger] arrow_at(conv, i),
    ensures
        signature_of(written_signature(ts, conv, ret)) == Ok::<SignatureModel, SignatureFault>(
            SignatureModel { convention: conv, params: ts, ret },
        ),
{
    let a = comma_list(ts);
    let w = type_word(ret);
    let s = written_signature(ts, conv, ret);
    let n = a.len() as int;
    let c = conv.len() as int;
    let k = n + c + 3;
    lemma_comma_list(ts);
    lemma_type_word(ret);
    assert(s.len() == k + 3 + w.len());
    assert forall|j: int| #[trigger] arrow_at(s, j) implies j == k by {
        if j < n {
            assert(s[j] == a[j]);
        } else if n < j < n + 1 + c {
            assert(s[j] == conv[j - n - 1]);
            if j + 1 < n + 1 + c {
                assert(s[j + 1] == conv[j - n]);
                assert(arrow_at(conv, j - n - 1));
            } else {
                assert(s[j + 1] == ')');
            }
        } else if j > k + 2 {
            assert(s[j] == w[j - k - 3]);
        } else {
            assert(j == n || j == n + 1 + c || j == n + 2 + c || j == k || j == k + 1 || j == k
                + 2);
        }
    }
    assert(sole_arrow_at(s, k));
    let left = s.subrange(0, k);
    assert(first_at(left, '(', 0, n)) by {
        assert forall|j: int| 0 <= j < n implies left[j] != '(' by {
            assert(left[j] == a[j]);
        }
    }
    let from = n + 1;
    assert(first_at(left, ')', from, n + 1 + c)) by {
        assert forall|j: int| from <= j < n + 1 + c implies left[j] != ')' by {
            assert(left[j] == conv[j - n - 1]);
        }
    }
    assert forall|o2: int| #[trigger] first_at(left, '(', 0, o2) implies o2 == n by {
        if o2 > n {
            assert(left[n] == '(');
        }
    }
    assert forall|c2: int| #[trigger] first_at(left, ')', from, c2) implies c2 == n + 1 + c by {
        if c2 > n + 1 + c {
            assert(left[n + 1 + c] == ')');
        }
    }
    assert(left.subrange(0, n) =~= a);
    assert(left.subrange(from, n + 1 + c) =~= conv);
    assert(exists|o: int| #[trigger] first_at(left, '(', 0, o));
    let o = choose|o: int| #[trigger] first_at(left, '(', 0, o);
    assert(o == n);
    assert(exists|c2: int| #[trigger] first_at(left, ')', from, c2));
    let c2 = choose|c2: int| #[trigger] first_at(left, ')', from, c2);
    assert(c2 == n + 1 + c);
    assert(split_convention(left) == Ok::<(Seq<char>, Seq<char>), SignatureFault>((a, conv)));
    if ts.len() == 0 {
        assert(a =~= Seq::<char>::empty());
        let ps = pieces(a, ',');
        assert(ps.drop_last() =~= Seq::<Seq<char>>::empty());
        assert(trim(ps.last()) =~= Seq::<char>::empty());
        assert(param_types_of(ps.drop_last()) == Ok::<Seq<SupportedType>, SignatureFault>(
            Seq::empty(),
        ));
        assert(ts =~= Seq::<SupportedType>::empty());
    }
    assert(param_types_of(pieces(a, ',')) == Ok::<Seq<SupportedType>, SignatureFault>(ts));
    let right = s.subrange(k + 2, s.len() as int);
    assert(right.drop_first() =~= w);
    assert(right[0] == ' ');
    assert(trim_start(right) == trim_start(w));
    assert(trim_start(w) == w) by {
        assert(!is_space(w[0]));
    }
    assert(trim_end(w) == w) by {
        assert(!is_space(w.last()));
    }
    assert(trim(right) == w);
    let kk = choose|kk: int| #[trigger] sole_arrow_at(s, kk);
    assert(kk == k);
}

/// A signature text without `->` is rejected as lacking the arrow.
pub proof fn lemma_arrowless_signature_rejected(s: Seq<char>)
    requires
        forall|i: int| !#[trigger] arrow_at(s, i),
    ensures
        signature_of(s) == Err::<SignatureModel, SignatureFault>(SignatureFault::MissingArrow),
{
}

/// A signature text whose first `(` left of its only arrow has no `)`
/// after it, left of the arrow, is rejected as malformed.
pub proof fn lemma_unclosed_paren_rejected(s: Seq<char>, k: int, o: int)
    requires
        sole_arrow_at(s, k),
        first_at(s.subrange(0, k), '(', 0, o),
        forall|j: int| o < j < k ==> s[j] != ')',
    ensures
        signature_of(s) == Err::<SignatureModel, SignatureFault>(SignatureFault::UnclosedParen),
{
    let left = s.subrange(0, k);
    let from = o + 1;
    assert(!exists|c: int| #[trigger] first_at(left, ')', from, c)) by {
        if exists|c: int| #[trigger] first_at(left, ')', from, c) {
            let c = choose|c: int| #[trigger] first_at(left, ')', from, c);
            assert(left[c] == s[c]);
        }
    }
}

/// A lone parameter token `t` that, trimmed, names no supported type makes
/// the text `t->r` fail with an error naming that trimmed token, whatever
/// return type `r` holds.
pub proof fn lemma_unknown_param_named(t: Seq<char>, r: Seq<char>)
    requires
        !t.contains(','),
        !t.contains('('),
        !t.contains('-'),
        forall|i: int| !#[trigger] arrow_at(r, i),
        trim(t).len() > 0,
        type_named(trim(t)) is None,
    ensures
        signature_of(t + seq!['-', '>'] + r) == Err::<SignatureModel, SignatureFault>(
            SignatureFault::UnsupportedType(trim(t)),
        ),
{
    let s = t + seq!['-', '>'] + r;
    let k = t.len() as int;
    assert forall|j: int| #[trigger] arrow_at(s, j) implies j == k by {
        if j < k {
            assert(s[j] == t[j]);
            assert(t.contains('-'));
        } else if j > k + 1 {
            assert(s[j] == r[j - k - 2]);
            assert(s[j + 1] == r[j - k - 1]);
            assert(arrow_at(r, j - k - 2));
        }
    }
    assert(sole_arrow_at(s, k));
    let left = s.subrange(0, k);
    assert(left =~= t);
    assert(!exists|o: int| #[trigger] first_at(left, '(', 0, o)) by {
        if exists|o: int| #[trigger] first_at(left, '(', 0, o) {
            let o = choose|o: int| #[trigger] first_at(left, '(', 0, o);
            assert(t[o] == '(');
        }
    }
    assert(split_convention(left) == Ok::<(Seq<char>, Seq<char>), SignatureFault>(
        (t, "cdecl"@),
    ));
    lemma_pieces_without_sep(t, ',');
    let ps = seq![t];
    assert(ps.drop_last() =~= Seq::<Seq<char>>::empty());
    assert(ps.last() == t);
    assert(param_types_of(ps.drop_last()) == Ok::<Seq<SupportedType>, SignatureFault>(
        Seq::empty(),
    ));
    assert(param_types_of(pieces(t, ',')) == Err::<Seq<SupportedType>, SignatureFault>(
        SignatureFault::UnsupportedType(trim(t)),
    ));
    let kk = choose|kk: int| #[trigger] sole_arrow_at(s, kk);
    assert(kk == k);
}

} // verus!
