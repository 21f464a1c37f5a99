//! Rendering computed changes as shell statements.
//!
//! Names and values are opaque bytes; they become text only here, at the
//! rendering boundary, through a lossy conversion, and are escaped so that
//! each value reads as one literal token in the target dialect.  The
//! conversion and the escaping are the work of outside code and stand
//! behind named, trusted wrappers; everything assembled around them is
//! verified.

use vstd::prelude::*;
use vstd::string::StringExecFns;
use crate::reconcile::ChangeView;
use crate::reconcile::EnvironmentChange;

verus! {

/// The characters that `String::from_utf8_lossy` yields for the given
/// bytes; they depend on the bytes alone.
pub uninterp spec fn lossy_utf8(b: Seq<u8>) -> Seq<char>;

/// Relies on `String::from_utf8_lossy`: decodes UTF-8, replacing each
/// invalid sequence with the replacement character; empty input stays
/// empty.
#[verifier::external_body]
fn lossy_string(b: &Vec<u8>) -> (r: String)
    ensures
        r@ == lossy_utf8(b@),
        b@.len() == 0 ==> r@.len() == 0,
{
    String::from_utf8_lossy(b.as_slice()).into_owned()
}

/// The characters that `shell_escape::unix::escape` yields for the given
/// characters; they depend on the characters alone.
pub uninterp spec fn sh_escaped(s: Seq<char>) -> Seq<char>;

/// Relies on `shell_escape::unix::escape`: quotes a string so that a
/// POSIX shell reads it as one literal word.  Its source returns the
/// input unchanged or a single-quoted form; the empty string becomes a
/// pair of single quotes, and the result is never empty.
#[verifier::external_body]
fn sh_escape(s: String) -> (r: String)
    ensures
        r@ == sh_escaped(s@),
        r@.len() > 0,
        s@.len() == 0 ==> r@ == "''"@,
{
    shell_escape::unix::escape(std::borrow::Cow::Owned(s)).into_owned()
}

/// The characters that `shell_escape::windows::escape` yields for the
/// given characters; they depend on the characters alone.
pub uninterp spec fn cmd_escaped(s: Seq<char>) -> Seq<char>;

/// Relies on `shell_escape::windows::escape`: quotes a string so that
/// `cmd.exe` reads it as one literal token.  Its source returns the input
/// unchanged or a double-quoted form; the empty string becomes a pair of
/// double quotes, and the result is never empty.
#[verifier::external_body]
fn cmd_escape(s: String) -> (r: String)
    ensures
        r@ == cmd_escaped(s@),
        r@.len() > 0,
        s@.len() == 0 ==> r@ == "\"\""@,
{
    shell_escape::windows::escape(std::borrow::Cow::Owned(s)).into_owned()
}

/// The `sh` statement that removes a variable.
pub open spec fn sh_unset_line(name: Seq<u8>) -> Seq<char> {
    "unset "@ + sh_escaped(lossy_utf8(name)) + ";"@
}

/// The `sh` statement that sets a variable.
pub open spec fn sh_assign_line(name: Seq<u8>, value: Seq<u8>) -> Seq<char> {
    "export "@ + sh_escaped(lossy_utf8(name)) + "="@ + sh_escaped(lossy_utf8(value)) + ";"@
}

/// The `sh` statement for one computed change.
pub open spec fn sh_line(c: ChangeView) -> Seq<char> {
    match c {
        ChangeView::Unset(name) => sh_unset_line(name),
        ChangeView::Assign(name, value) => sh_assign_line(name, value),
    }
}

/// The `cmd` statement that removes a variable.
pub open spec fn cmd_unset_line(name: Seq<u8>) -> Seq<char> {
    "set "@ + cmd_escaped(lossy_utf8(name)) + "="@
}

/// The `cmd` statement that sets a variable: `set` applied to the whole
/// escaped `name=value` token.
pub open spec fn cmd_assign_line(name: Seq<u8>, value: Seq<u8>) -> Seq<char> {
    "set "@ + cmd_escaped(lossy_utf8(name) + "="@ + lossy_utf8(value))
}

/// The `cmd` statement for one computed change.
pub open spec fn cmd_line(c: ChangeView) -> Seq<char> {
    match c {
        ChangeView::Unset(name) => cmd_unset_line(name),
        ChangeView::Assign(name, value) => cmd_assign_line(name, value),
    }
}

/// Render one change as an `sh` statement.
pub fn render_sh(c: &EnvironmentChange) -> (r: String)
    ensures
        r@ == sh_line(c@),
{
    match c {
        EnvironmentChange::Unset(name) => {
            let mut out = String::from_str("unset ");
            let esc = sh_escape(lossy_string(name));
            out.append(esc.as_str());
            out.append(";");
            out
        },
        EnvironmentChange::Assign(name, value) => {
            let mut out = String::from_str("export ");
            let esc_name = sh_escape(lossy_string(name));
            out.append(esc_name.as_str());
            out.append("=");
            let esc_value = sh_escape(lossy_string(value));
            out.append(esc_value.as_str());
            out.append(";");
            out
        },
    }
}

/// Render one change as a `cmd` statement.
pub fn render_cmd(c: &EnvironmentChange) -> (r: String)
    ensures
        r@ == cmd_line(c@),
{
    match c {
        EnvironmentChange::Unset(name) => {
            let mut out = String::from_str("set ");
            let esc = cmd_escape(lossy_string(name));
            out.append(esc.as_str());
            out.append("=");
            out
        },
        EnvironmentChange::Assign(name, value) => {
            let mut token = lossy_string(name);
            token.append("=");
            let value_text = lossy_string(value);
            token.append(value_text.as_str());
            let mut out = String::from_str("set ");
            let esc = cmd_escape(token);
            out.append(esc.as_str());
            out
        },
    }
}

/// The spec-level lines of a rendered script.
pub open spec fn lines_model(v: Seq<String>) -> Seq<Seq<char>> {
    v.map_values(|s: String| s@)
}

/// Render a whole change list as `sh` statements, one per change.
pub fn render_sh_script(changes: &Vec<EnvironmentChange>) -> (lines: Vec<String>)
    ensures
        lines@.len() == changes@.len(),
        forall|i: int| 0 <= i < changes@.len() ==> lines_model(lines@)[i] == sh_line(changes@[i]@),
{
    let mut lines: Vec<String> = Vec::new();
    let n: usize = changes.len();
    let mut i: usize = 0;
    while i < n
        invariant
            n == changes@.len(),
            i <= n,
            lines@.len() == i,
            forall|j: int| 0 <= j < i ==> lines_model(lines@)[j] == sh_line(changes@[j]@),
        decreases n - i,
    {
        let ghost prev = lines@;
        let line = render_sh(&changes[i]);
        lines.push(line);
        proof {
            assert forall|j: int| 0 <= j < i + 1 implies lines_model(lines@)[j] == sh_line(
                changes@[j]@,
            ) by {
                assert(lines_model(lines@)[j] == lines@[j]@);
                if j < i {
                    assert(lines@[j] == prev[j]);
                    assert(lines_model(prev)[j] == prev[j]@);
                }
            }
        }
        i = i + 1;
    }
    lines
}

/// Render a whole change list as `cmd` statements, one per change.
pub fn render_cmd_script(changes: &Vec<EnvironmentChange>) -> (lines: Vec<String>)
    ensures
        lines@.len() == changes@.len(),
        forall|i: int| 0 <= i < changes@.len() ==> lines_model(lines@)[i] == cmd_line(changes@[i]@),
{
    let mut lines: Vec<String> = Vec::new();
    let n: usize = changes.len();
    let mut i: usize = 0;
    while i < n
        invariant
            n == changes@.len(),
            i <= n,
            lines@.len() == i,
            forall|j: int| 0 <= j < i ==> lines_model(lines@)[j] == cmd_line(changes@[j]@),
        decreases n - i,
    {
        let ghost prev = lines@;
        let line = render_cmd(&changes[i]);
        lines.push(line);
        proof {
            assert forall|j: int| 0 <= j < i + 1 implies lines_model(lines@)[j] == cmd_line(
                changes@[j]@,
            ) by {
                assert(lines_model(lines@)[j] == lines@[j]@);
                if j < i {
                    assert(lines@[j] == prev[j]);
                    assert(lines_model(prev)[j] == prev[j]@);
                }
            }
        }
        i = i + 1;
    }
    lines
}

} // verus!
