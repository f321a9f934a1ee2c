//! Presenter: renders the selected name either as bare text (raw mode)
//! or wrapped in decorative framing, and renders the diagnostics for the
//! two failure conditions. Rendering only builds bytes; the caller writes
//! them to the standard or error stream.

use vstd::prelude::*;

use crate::loader::NEWLINE;
use crate::loader::copy_bytes;

verus! {

/// Width of the dash run inside a border line.
pub const BORDER_WIDTH: usize = 41;

/// The introductory line: printed before anything else in decorated mode,
/// announcing that the oracle is being consulted.
pub open spec fn intro_text() -> Seq<u8> {
    seq![
        10u8,
        67u8, 111u8, 110u8, 115u8, 117u8, 108u8, 116u8, 105u8, 110u8, 103u8, 32u8,
        116u8, 104u8, 101u8, 32u8,
        67u8, 111u8, 115u8, 109u8, 105u8, 99u8, 32u8,
        79u8, 114u8, 97u8, 99u8, 108u8, 101u8, 32u8,
        102u8, 111u8, 114u8, 32u8,
        97u8, 32u8,
        110u8, 97u8, 109u8, 101u8, 46u8, 46u8, 46u8,
        10u8,
    ]
}

/// `n` dashes.
pub open spec fn dash_run(n: nat) -> Seq<u8> {
    Seq::new(n, |i: int| 45u8)
}

/// One border line of the decorative frame.
pub open spec fn border_line() -> Seq<u8> {
    seq![43u8] + dash_run(BORDER_WIDTH as nat) + seq![43u8, 10u8]
}

/// The marker bytes placed before the name on its line.
pub open spec fn mark_pre() -> Seq<u8> {
    seq![61u8, 62u8, 32u8]
}

/// The marker bytes placed after the name on its line.
pub open spec fn mark_post() -> Seq<u8> {
    seq![32u8, 60u8, 61u8, 10u8]
}

/// The line that carries the name, set off by marker symbols.
pub open spec fn name_line(name: Seq<u8>) -> Seq<u8> {
    mark_pre() + name + mark_post()
}

/// Decorated output: a bordered frame around the name's own line.
pub open spec fn decorated(name: Seq<u8>) -> Seq<u8> {
    border_line() + name_line(name) + border_line()
}

/// The failure message for the defensive "no candidates" condition,
/// written to the error stream instead of any name-shaped output.
pub open spec fn silent_text() -> Seq<u8> {
    seq![
        69u8, 114u8, 114u8, 111u8, 114u8, 58u8, 32u8,
        116u8, 104u8, 101u8, 32u8,
        115u8, 116u8, 97u8, 114u8, 115u8, 32u8,
        104u8, 97u8, 118u8, 101u8, 32u8,
        103u8, 111u8, 110u8, 101u8, 32u8,
        115u8, 105u8, 108u8, 101u8, 110u8, 116u8, 46u8,
        10u8,
    ]
}

/// The diagnostic for the fatal empty-list condition: no parsable name
/// in any source, so the run must abort before selection.
pub open spec fn empty_list_text() -> Seq<u8> {
    seq![
        69u8, 114u8, 114u8, 111u8, 114u8, 58u8, 32u8,
        116u8, 104u8, 101u8, 32u8,
        110u8, 97u8, 109u8, 101u8, 32u8,
        108u8, 105u8, 115u8, 116u8, 32u8,
        105u8, 115u8, 32u8,
        101u8, 109u8, 112u8, 116u8, 121u8, 46u8,
        10u8,
    ]
}

/// Appends all of `v` to `out`.
fn append_bytes(out: &mut Vec<u8>, v: &Vec<u8>)
    ensures
        final(out)@ == old(out)@ + v@,
{
    let ghost base = out@;
    let mut i: usize = 0;
    while i < v.len()
        invariant
            i <= v@.len(),
            out@ == base + v@.take(i as int),
        decreases v@.len() - i,
    {
        out.push(v[i]);
        proof {
            assert(v@.take(i + 1) =~= v@.take(i as int).push(v@[i as int]));
            assert(base + v@.take(i + 1) =~= (base + v@.take(i as int)).push(v@[i as int]));
        }
        i = i + 1;
    }
    proof {
        assert(v@.take(v@.len() as int) =~= v@);
    }
}

/// Appends one border line to `out`.
fn push_border(out: &mut Vec<u8>)
    ensures
        final(out)@ == old(out)@ + border_line(),
{
    let ghost base = out@;
    out.push(43u8);
    let mut i: usize = 0;
    while i < BORDER_WIDTH
        invariant
            i <= BORDER_WIDTH,
            out@ == base + seq![43u8] + dash_run(i as nat),
        decreases BORDER_WIDTH - i,
    {
        out.push(45u8);
        proof {
            assert(dash_run((i + 1) as nat) =~= dash_run(i as nat).push(45u8));
            assert(base + seq![43u8] + dash_run((i + 1) as nat) =~= (base + seq![43u8]
                + dash_run(i as nat)).push(45u8));
        }
        i = i + 1;
    }
    out.push(43u8);
    out.push(10u8);
    proof {
        assert(base + border_line() =~= ((base + seq![43u8] + dash_run(
            BORDER_WIDTH as nat,
        )).push(43u8)).push(10u8));
    }
}

/// The introductory line as bytes.
pub fn intro_line() -> (out: Vec<u8>)
    ensures
        out@ == intro_text(),
{
    let mut out: Vec<u8> = Vec::new();
    out.push(10u8);
    out.push(67u8);
    out.push(111u8);
    out.push(110u8);
    out.push(115u8);
    out.push(117u8);
    out.push(108u8);
    out.push(116u8);
    out.push(105u8);
    out.push(110u8);
    out.push(103u8);
    out.push(32u8);
    out.push(116u8);
    out.push(104u8);
    out.push(101u8);
    out.push(32u8);
    out.push(67u8);
    out.push(111u8);
    out.push(115u8);
    out.push(109u8);
    out.push(105u8);
    out.push(99u8);
    out.push(32u8);
    out.push(79u8);
    out.push(114u8);
    out.push(97u8);
    out.push(99u8);
    out.push(108u8);
    out.push(101u8);
    out.push(32u8);
    out.push(102u8);
    out.push(111u8);
    out.push(114u8);
    out.push(32u8);
    out.push(97u8);
    out.push(32u8);
    out.push(110u8);
    out.push(97u8);
    out.push(109u8);
    out.push(101u8);
    out.push(46u8);
    out.push(46u8);
    out.push(46u8);
    out.push(10u8);
    proof {
        assert(out@ =~= intro_text());
    }
    out
}

/// The "stars have gone silent" failure message as bytes.
pub fn silent_message() -> (out: Vec<u8>)
    ensures
        out@ == silent_text(),
{
    let mut out: Vec<u8> = Vec::new();
    out.push(69u8);
    out.push(114u8);
    out.push(114u8);
    out.push(111u8);
    out.push(114u8);
    out.push(58u8);
    out.push(32u8);
    out.push(116u8);
    out.push(104u8);
    out.push(101u8);
    out.push(32u8);
    out.push(115u8);
    out.push(116u8);
    out.push(97u8);
    out.push(114u8);
    out.push(115u8);
    out.push(32u8);
    out.push(104u8);
    out.push(97u8);
    out.push(118u8);
    out.push(101u8);
    out.push(32u8);
    out.push(103u8);
    out.push(111u8);
    out.push(110u8);
    out.push(101u8);
    out.push(32u8);
    out.push(115u8);
    out.push(105u8);
    out.push(108u8);
    out.push(101u8);
    out.push(110u8);
    out.push(116u8);
    out.push(46u8);
    out.push(10u8);
    proof {
        assert(out@ =~= silent_text());
    }
    out
}

/// The empty-list diagnostic as bytes.
pub fn empty_list_message() -> (out: Vec<u8>)
    ensures
        out@ == empty_list_text(),
{
    let mut out: Vec<u8> = Vec::new();
    out.push(69u8);
    out.push(114u8);
    out.push(114u8);
    out.push(111u8);
    out.push(114u8);
    out.push(58u8);
    out.push(32u8);
    out.push(116u8);
    out.push(104u8);
    out.push(101u8);
    out.push(32u8);
    out.push(110u8);
    out.push(97u8);
    out.push(109u8);
    out.push(101u8);
    out.push(32u8);
    out.push(108u8);
    out.push(105u8);
    out.push(115u8);
    out.push(116u8);
    out.push(32u8);
    out.push(105u8);
    out.push(115u8);
    out.push(32u8);
    out.push(101u8);
    out.push(109u8);
    out.push(112u8);
    out.push(116u8);
    out.push(121u8);
    out.push(46u8);
    out.push(10u8);
    proof {
        assert(out@ =~= empty_list_text());
    }
    out
}

/// Raw output: exactly the name, no decoration, no extra characters.
pub fn render_raw(name: &Vec<u8>) -> (out: Vec<u8>)
    ensures
        out@ == name@,
{
    copy_bytes(name)
}

/// Decorated output: the name on its own marked line inside a frame.
pub fn render_decorated(name: &Vec<u8>) -> (out: Vec<u8>)
    ensures
        out@ == decorated(name@),
{
    let mut out: Vec<u8> = Vec::new();
    push_border(&mut out);
    out.push(61u8);
    out.push(62u8);
    out.push(32u8);
    let ghost mid = out@;
    proof {
        assert(mid =~= border_line() + mark_pre());
    }
    append_bytes(&mut out, name);
    out.push(32u8);
    out.push(60u8);
    out.push(61u8);
    out.push(10u8);
    proof {
        assert(out@ =~= border_line() + name_line(name@));
    }
    push_border(&mut out);
    proof {
        assert(out@ =~= decorated(name@));
    }
    out
}

/// Renders the selected name for the chosen output mode.
pub fn render(name: &Vec<u8>, raw: bool) -> (out: Vec<u8>)
    ensures
        raw ==> out@ == name@,
        !raw ==> out@ == decorated(name@),
{
    if raw {
        render_raw(name)
    } else {
        render_decorated(name)
    }
}

/// In decorated mode the name stands on its own, clearly delimited line,
/// after the introductory text: in the full standard-output bytes the name
/// appears right after the marker prefix, and a newline that comes at or
/// after the end of the introduction separates the two.
pub proof fn lemma_decorated_sets_name_apart(name: Seq<u8>)
    ensures
        ({
            let out = intro_text() + decorated(name);
            let start = intro_text().len() + border_line().len() + mark_pre().len();
            &&& out.subrange(start as int, start + name.len() as int) == name
            &&& out.subrange((start - mark_pre().len()) as int, start as int) == mark_pre()
            &&& out[(intro_text().len() + border_line().len() - 1) as int] == NEWLINE
            &&& intro_text().len() <= intro_text().len() + border_line().len() - 1
        }),
{
    let out = intro_text() + decorated(name);
    let start = intro_text().len() + border_line().len() + mark_pre().len();
    assert(border_line().len() == BORDER_WIDTH + 3);
    assert(out.subrange(start as int, start + name.len() as int) =~= name);
    assert(out.subrange((start - mark_pre().len()) as int, start as int) =~= mark_pre());
    assert(border_line()[(border_line().len() - 1) as int] == 10u8);
    assert(out[(intro_text().len() + border_line().len() - 1) as int] == 10u8);
}

} // verus!
