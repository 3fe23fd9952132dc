//! The error value that the library's fallible functions return.

use vstd::prelude::*;

use crate::chars::{decimal, decimal_text, push_char, string_from};
use crate::liz_texts::rfind_index;

verus! {

/// An error that carries a message.
#[derive(Clone, Debug)]
pub struct MessageErr {
    body: String,
}

impl View for MessageErr {
    type V = Seq<char>;

    closed spec fn view(&self) -> Seq<char> {
        self.body@
    }
}

impl MessageErr {
    /// An error holding the given message.
    pub fn of(s: String) -> (r: MessageErr)
        ensures
            r@ == s@,
    {
        MessageErr { body: s }
    }

    /// An error holding a copy of the given message.
    pub fn new(s: &str) -> (r: MessageErr)
        ensures
            r@ == s@,
    {
        MessageErr { body: s.to_owned() }
    }

    /// An error holding the text that an error displays.
    pub fn from(text: String) -> (r: MessageErr)
        ensures
            r@ == text@,
    {
        MessageErr { body: text }
    }

    /// An error holding a message followed by `, ` and the text that another
    /// error displays.
    pub fn with(s: &str, text: &str) -> (r: MessageErr)
        ensures
            r@ == s@ + seq![',', ' '] + text@,
    {
        let mut body = string_from(s);
        push_char(&mut body, ',');
        push_char(&mut body, ' ');
        body.append(text);
        MessageErr { body }
    }

    /// The message of the error.
    pub fn as_str(&self) -> (r: &str)
        ensures
            r@ == self@,
    {
        self.body.as_str()
    }
}

/// An error holding the given message.
pub fn wrong(message: String) -> (r: MessageErr)
    ensures
        r@ == message@,
{
    MessageErr::of(message)
}

/// An error holding the given message.
pub fn throw(message: String) -> (r: MessageErr)
    ensures
        r@ == message@,
{
    MessageErr::of(message)
}

/// A debug message: `[kind] msg on (func) in file[line]`, with ` as {vals}`
/// after the message where there are values.
pub open spec fn spec_debug_make(
    kind: Seq<char>,
    file: Seq<char>,
    line: nat,
    func: Seq<char>,
    vals: Seq<char>,
    msg: Seq<char>,
) -> Seq<char> {
    let head = seq!['['] + kind + seq![']', ' '] + msg;
    let middle = if vals.len() == 0 {
        Seq::empty()
    } else {
        seq![' ', 'a', 's', ' ', '{'] + vals + seq!['}']
    };
    head + middle + seq![' ', 'o', 'n', ' ', '('] + func + seq![')', ' ', 'i', 'n', ' '] + file + seq!['['] + decimal(
        line,
    ) + seq![']']
}

/// Makes a debug message (see `spec_debug_make`); writing it out is the
/// caller's part.
pub fn debug_make(kind: &str, file: &str, line: u32, func: &str, vals: String, msg: &str) -> (r: String)
    ensures
        r@ == spec_debug_make(kind@, file@, line as nat, func@, vals@, msg@),
{
    let mut r = String::new();
    push_char(&mut r, '[');
    r.append(kind);
    push_char(&mut r, ']');
    push_char(&mut r, ' ');
    r.append(msg);
    if !vals.as_str().is_empty() {
        push_char(&mut r, ' ');
        push_char(&mut r, 'a');
        push_char(&mut r, 's');
        push_char(&mut r, ' ');
        push_char(&mut r, '{');
        r.append(vals.as_str());
        push_char(&mut r, '}');
    }
    push_char(&mut r, ' ');
    push_char(&mut r, 'o');
    push_char(&mut r, 'n');
    push_char(&mut r, ' ');
    push_char(&mut r, '(');
    r.append(func);
    push_char(&mut r, ')');
    push_char(&mut r, ' ');
    push_char(&mut r, 'i');
    push_char(&mut r, 'n');
    push_char(&mut r, ' ');
    r.append(file);
    push_char(&mut r, '[');
    r.append(decimal_text(line as usize).as_str());
    push_char(&mut r, ']');
    assert(r@ =~= spec_debug_make(kind@, file@, line as nat, func@, vals@, msg@));
    r
}

/// An information message (see `spec_debug_make`, of kind `INFO`).
pub fn debug_info(file: &str, line: u32, func: &str, vals: String, msg: &str) -> (r: String)
    ensures
        r@ == spec_debug_make("INFO"@, file@, line as nat, func@, vals@, msg@),
{
    debug_make("INFO", file, line, func, vals, msg)
}

/// A message of the given kind (see `spec_debug_make`).
pub fn debug_kind(kind: &str, file: &str, line: u32, func: &str, vals: String, msg: &str) -> (r: String)
    ensures
        r@ == spec_debug_make(kind@, file@, line as nat, func@, vals@, msg@),
{
    debug_make(kind, file, line, func, vals, msg)
}

/// An error whose message is an error message (see `spec_debug_make`, of
/// kind `ERRO`).
pub fn debug_erro(file: &str, line: u32, func: &str, vals: String, err: &str) -> (r: MessageErr)
    ensures
        r@ == spec_debug_make("ERRO"@, file@, line as nat, func@, vals@, err@),
{
    throw(debug_make("ERRO", file, line, func, vals, err))
}

/// An error whose message is a message of the given kind (see
/// `spec_debug_make`).
pub fn debug_jolt(kind: &str, file: &str, line: u32, func: &str, vals: String, err: &str) -> (r: MessageErr)
    ensures
        r@ == spec_debug_make(kind@, file@, line as nat, func@, vals@, err@),
{
    throw(debug_make(kind, file, line, func, vals, err))
}

/// Where an error passed on came from: what its message says after its last
/// ` on ` (from the `(` on), or nothing.
pub open spec fn bleb_origin(message: Seq<char>) -> Seq<char> {
    let k = crate::liz_texts::last_occurrence(message, " on ("@);
    if k < 0 {
        Seq::empty()
    } else {
        message.skip(k + 4)
    }
}

/// The message logged for an error passed on: an error message (see
/// `spec_debug_make`) that says `[BLEB] from` and where the error came from
/// (see `bleb_origin`). The error itself goes on unchanged.
pub fn debug_bleb(file: &str, line: u32, func: &str, vals: String, err: &MessageErr) -> (r: String)
    ensures
        r@ == spec_debug_make(
            "ERRO"@,
            file@,
            line as nat,
            func@,
            vals@,
            "[BLEB] from "@ + bleb_origin(err@),
        ),
{
    let from = err.as_str();
    let mut origin = string_from("[BLEB] from ");
    match rfind_index(from, " on (") {
        Some(k) => {
            proof {
                reveal_strlit(" on (");
                crate::liz_texts::lemma_last_from(from@, " on ("@, from@.len() - 5);
            }
            let n = from.unicode_len();
            origin.append(from.substring_char(k + 4, n));
        },
        None => {},
    }
    debug_make("ERRO", file, line, func, vals, origin.as_str())
}

/// The debug message of a `CALL` point (see `spec_debug_make`, of kind
/// `DBUG`), where the debug size is at least 1; `None` below it.
pub fn debug_call(file: &str, line: u32, func: &str, vals: String, size: usize) -> (r: Option<String>)
    ensures
        size < 1 ==> r is None,
        size >= 1 ==> (r matches Some(m) && m@ == spec_debug_make(
            "DBUG"@,
            file@,
            line as nat,
            func@,
            vals@,
            "[CALL]"@,
        )),
{
    if size >= 1 {
        Some(debug_make("DBUG", file, line, func, vals, "[CALL]"))
    } else {
        None
    }
}

/// The debug message of a `REAV` point (see `spec_debug_make`, of kind
/// `DBUG`), where the debug size is at least 2; `None` below it.
pub fn debug_reav(file: &str, line: u32, func: &str, vals: String, size: usize) -> (r: Option<String>)
    ensures
        size < 2 ==> r is None,
        size >= 2 ==> (r matches Some(m) && m@ == spec_debug_make(
            "DBUG"@,
            file@,
            line as nat,
            func@,
            vals@,
            "[REAV]"@,
        )),
{
    if size >= 2 {
        Some(debug_make("DBUG", file, line, func, vals, "[REAV]"))
    } else {
        None
    }
}

/// The debug message of a `SEAL` point (see `spec_debug_make`, of kind
/// `DBUG`), where the debug size is at least 3; `None` below it.
pub fn debug_seal(file: &str, line: u32, func: &str, vals: String, size: usize) -> (r: Option<String>)
    ensures
        size < 3 ==> r is None,
        size >= 3 ==> (r matches Some(m) && m@ == spec_debug_make(
            "DBUG"@,
            file@,
            line as nat,
            func@,
            vals@,
            "[SEAL]"@,
        )),
{
    if size >= 3 {
        Some(debug_make("DBUG", file, line, func, vals, "[SEAL]"))
    } else {
        None
    }
}

/// The debug message of a `STEP` point (see `spec_debug_make`, of kind
/// `DBUG`), where the debug size is at least 3; `None` below it.
pub fn debug_step(file: &str, line: u32, func: &str, vals: String, size: usize) -> (r: Option<String>)
    ensures
        size < 3 ==> r is None,
        size >= 3 ==> (r matches Some(m) && m@ == spec_debug_make(
            "DBUG"@,
            file@,
            line as nat,
            func@,
            vals@,
            "[STEP]"@,
        )),
{
    if size >= 3 {
        Some(debug_make("DBUG", file, line, func, vals, "[STEP]"))
    } else {
        None
    }
}

/// The debug message of a `TELL` point (see `spec_debug_make`, of kind
/// `DBUG`), where the debug size is at least 4; `None` below it.
pub fn debug_tell(file: &str, line: u32, func: &str, vals: String, size: usize) -> (r: Option<String>)
    ensures
        size < 4 ==> r is None,
        size >= 4 ==> (r matches Some(m) && m@ == spec_debug_make(
            "DBUG"@,
            file@,
            line as nat,
            func@,
            vals@,
            "[TELL]"@,
        )),
{
    if size >= 4 {
        Some(debug_make("DBUG", file, line, func, vals, "[TELL]"))
    } else {
        None
    }
}

} // verus!
