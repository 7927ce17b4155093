//! The command-driven calculator: a four-deep register stack with a LastX
//! slot, a pending-input buffer, a shift layer, a display-mode sub-machine
//! and a scrollable text overlay, all mutated only through the command
//! dispatch entry point.

use crate::disp::NumDisplay;
use crate::native::Native;
use crate::num::{decode_spec, BinOp, Num};
use crate::text::all_ascii;
use vstd::prelude::*;
use vstd::string::StringSliceAdditionalSpecFns;
use vstd::string::StrSliceExecFns;

verus! {

/// The display-selection sub-machine's states.
#[derive(Clone, Copy, Debug, PartialEq, Eq, Structural)]
pub enum DispState {
    /// Choosing among the five modes.
    DispStart,
    /// Waiting for a fixed-notation precision digit.
    DispFix,
    /// Waiting for a scientific precision digit.
    DispSci,
    /// Waiting for a radix-16 letter case.
    DispHex,
}

impl Default for DispState {
    fn default() -> (r: DispState)
        ensures
            r == DispState::DispStart,
    {
        DispState::DispStart
    }
}

/// The shift layer, the two register selectors, and the display sub-machine.
#[derive(Clone, Copy, Debug, PartialEq, Eq, Structural)]
pub enum State {
    /// The base layer.
    Base,
    /// The alternate layer.
    Alt,
    /// The inverse layer.
    Inv,
    /// Waiting for a store target.
    Sto,
    /// Waiting for a recall source.
    Rcl,
    /// Inside the display sub-machine.
    Disp(DispState),
}

impl Default for State {
    fn default() -> (r: State)
        ensures
            r == State::Base,
    {
        State::Base
    }
}

/// What one display sub-machine step did.
#[derive(Clone, Copy, Debug, PartialEq, Eq, Structural)]
pub enum DispAction {
    /// Stayed inside the sub-machine.
    Stay,
    /// Reported the current mode.
    Current,
    /// An unusable key.
    Error,
    /// Set a mode.
    SetMode,
}

/// The calculator.
pub struct Calc {
    /// The oldest register.
    pub t: Num,
    /// The third register.
    pub z: Num,
    /// The second register.
    pub y: Num,
    /// The newest register, the working one.
    pub x: Num,
    /// The value last consumed from X by a binary operator.
    pub last_x: Num,
    /// The pending input text, not yet committed to X.
    pub input: Vec<u8>,
    /// The shift layer / sub-machine state.
    pub state: State,
    /// The display mode.
    pub disp: NumDisplay,
    /// The help or status overlay text.
    pub text: String,
    /// The overlay scroll offset.
    pub scroll: usize,
}

/// The mathematical state of the calculator.
#[verifier::ext_equal]
pub ghost struct CalcV {
    /// Register values, oldest first.
    pub t: Native,
    pub z: Native,
    pub y: Native,
    pub x: Native,
    pub last_x: Native,
    pub input: Seq<u8>,
    pub state: State,
    pub disp: NumDisplay,
    pub text: Seq<char>,
    pub scroll: nat,
}

impl View for Calc {
    type V = CalcV;

    open spec fn view(&self) -> CalcV {
        CalcV {
            t: self.t@,
            z: self.z@,
            y: self.y@,
            x: self.x@,
            last_x: self.last_x@,
            input: self.input@,
            state: self.state,
            disp: self.disp,
            text: self.text@,
            scroll: self.scroll as nat,
        }
    }
}

impl Calc {
    /// Every register holds a canonical checked value and the input buffer
    /// is ASCII.
    pub open spec fn wf(self) -> bool {
        self.t.wf() && self.z.wf() && self.y.wf() && self.x.wf() && self.last_x.wf() && all_ascii(
            self.input@,
        ) && self.scroll <= 4000 && self.text@.len() <= 4000
    }

    /// A fresh calculator: zeroed registers, empty input and overlay, base
    /// layer, adaptive display.
    pub fn new() -> (r: Calc)
        ensures
            r.wf(),
            r@.t == Native::Integer(0),
            r@.z == Native::Integer(0),
            r@.y == Native::Integer(0),
            r@.x == Native::Integer(0),
            r@.last_x == Native::Integer(0),
            r@.input.len() == 0,
            r@.state == State::Base,
            r@.disp == NumDisplay::Std,
            r@.text.len() == 0,
            r@.scroll == 0,
    {
        let zero = Num::zero();
        Calc {
            t: zero,
            z: zero,
            y: zero,
            x: zero,
            last_x: zero,
            input: Vec::new(),
            state: State::Base,
            disp: NumDisplay::Std,
            text: String::new(),
            scroll: 0,
        }
    }

    /// Push: the stack shifts up and the new value enters X.
    pub fn up_with_x(&mut self, x: Num)
        requires
            old(self).wf(),
            x.wf(),
        ensures
            final (self).wf(),
            final (self)@ == (CalcV {
                t: old(self)@.z,
                z: old(self)@.y,
                y: old(self)@.x,
                x: x@,
                ..old(self)@
            }),
    {
        self.t = self.z;
        self.z = self.y;
        self.y = self.x;
        self.x = x;
    }

    /// Drop-push: a binary result replaces the two top operands, the stack
    /// shifts down, T is kept.
    pub fn down_with_x(&mut self, x: Num)
        requires
            old(self).wf(),
            x.wf(),
        ensures
            final (self).wf(),
            final (self)@ == (CalcV {
                x: x@,
                y: old(self)@.z,
                z: old(self)@.t,
                ..old(self)@
            }),
    {
        self.x = x;
        self.y = self.z;
        self.z = self.t;
    }

    /// Append to the pending input, first pushing a zero onto the stack
    /// when entry begins.
    pub fn add_input(&mut self, input: &str)
        requires
            old(self).wf(),
            input.is_ascii(),
        ensures
            final (self).wf(),
            final (self)@ == (CalcV {
                input: old(self)@.input + input.spec_bytes(),
                t: if old(self)@.input.len() == 0 {
                    old(self)@.z
                } else {
                    old(self)@.t
                },
                z: if old(self)@.input.len() == 0 {
                    old(self)@.y
                } else {
                    old(self)@.z
                },
                y: if old(self)@.input.len() == 0 {
                    old(self)@.x
                } else {
                    old(self)@.y
                },
                x: if old(self)@.input.len() == 0 {
                    Native::Integer(0)
                } else {
                    old(self)@.x
                },
                ..old(self)@
            }),
    {
        if self.input.len() == 0 {
            self.up_with_x(Num::zero());
        }
        proof {
            crate::text::lemma_ascii_str_bytes(input);
        }
        let ghost mid = *self;
        let bs = crate::text::str_bytes(input);
        let mut i: usize = 0;
        while i < bs.len()
            invariant
                i <= bs@.len(),
                bs@ == input.spec_bytes(),
                all_ascii(bs@),
                mid.wf(),
                self.t == mid.t && self.z == mid.z && self.y == mid.y && self.x == mid.x
                    && self.last_x == mid.last_x && self.state == mid.state && self.disp
                    == mid.disp && self.text == mid.text && self.scroll == mid.scroll,
                self.input@ == mid.input@ + bs@.take(i as int),
                all_ascii(self.input@),
            decreases bs@.len() - i,
        {
            let b = bs[i];
            self.input.push(b);
            proof {
                assert(self.input@ =~= mid.input@ + bs@.take(i + 1));
                assert forall|j: int| 0 <= j < self.input@.len() implies self.input@[j] < 128 by {
                    if j < mid.input@.len() {
                        assert(self.input@[j] == mid.input@[j]);
                    } else {
                        assert(self.input@[j] == bs@.take(i + 1)[j - mid.input@.len()]);
                    }
                }
            }
            i = i + 1;
        }
        proof {
            assert(bs@.take(bs@.len() as int) =~= bs@);
            assert(self@ =~= (CalcV { input: mid@.input + input.spec_bytes(), ..mid@ }));
        }
    }

    /// Show a status text and reset the scroll.
    pub fn status(&mut self, status: &str)
        requires
            old(self).wf(),
            status@.len() <= 4000,
        ensures
            final (self).wf(),
            final (self)@ == (CalcV { text: status@, scroll: 0, ..old(self)@ }),
    {
        self.scroll = 0;
        let mut t = String::new();
        t.push_str(status);
        self.text = t;
    }
}

} // verus!

verus! {

/// The number of lines of an overlay text (one more than its newlines).
pub open spec fn line_count(s: Seq<char>) -> int
    decreases s.len(),
{
    if s.len() == 0 {
        1
    } else {
        line_count(s.drop_last()) + (if s.last() == '\n' {
            1int
        } else {
            0int
        })
    }
}

/// The short label of a display mode.
pub open spec fn disp_label_spec(d: NumDisplay) -> Seq<char> {
    match d {
        NumDisplay::Std => "Std"@,
        NumDisplay::Raw => "Raw"@,
        NumDisplay::Fix(p) => "Fix("@ + crate::text::chars_of(crate::text::digits_of(p as int))
            + ")"@,
        NumDisplay::Sci(p) => "Sci("@ + crate::text::chars_of(crate::text::digits_of(p as int))
            + ")"@,
        NumDisplay::HexU => "HexU"@,
        NumDisplay::HexL => "HexL"@,
    }
}

/// One selection step of the display sub-machine: the next state, the mode,
/// and what happened.
pub open spec fn disp_sel(ds: DispState, cmd: Seq<char>, cur: NumDisplay) -> (
    State,
    NumDisplay,
    DispAction,
) {
    if ds == DispState::DispStart && cmd == "A"@ {
        (State::Base, NumDisplay::Std, DispAction::SetMode)
    } else if ds == DispState::DispStart && cmd == "B"@ {
        (State::Disp(DispState::DispFix), cur, DispAction::Stay)
    } else if ds == DispState::DispStart && cmd == "C"@ {
        (State::Disp(DispState::DispSci), cur, DispAction::Stay)
    } else if ds == DispState::DispStart && cmd == "D"@ {
        (State::Disp(DispState::DispHex), cur, DispAction::Stay)
    } else if ds == DispState::DispStart && cmd == "E"@ {
        (State::Base, NumDisplay::Raw, DispAction::SetMode)
    } else if ds == DispState::DispFix && is_digit_cmd(cmd) {
        (State::Base, NumDisplay::Fix((cmd[0] as u8 - 48) as u8), DispAction::SetMode)
    } else if ds == DispState::DispSci && is_digit_cmd(cmd) {
        (State::Base, NumDisplay::Sci((cmd[0] as u8 - 48) as u8), DispAction::SetMode)
    } else if ds == DispState::DispHex && cmd == "A"@ {
        (State::Base, NumDisplay::HexU, DispAction::SetMode)
    } else if ds == DispState::DispHex && cmd == "B"@ {
        (State::Base, NumDisplay::HexL, DispAction::SetMode)
    } else if cmd == "F"@ {
        (State::Base, cur, DispAction::Current)
    } else {
        (State::Base, cur, DispAction::Error)
    }
}

/// A one-digit command.
pub open spec fn is_digit_cmd(cmd: Seq<char>) -> bool {
    cmd.len() == 1 && '0' <= cmd[0] <= '9'
}

/// The status line after a display sub-machine step.
pub open spec fn disp_status_text(st: State, act: DispAction, d: NumDisplay) -> Seq<char> {
    if act == DispAction::Stay && (st == State::Disp(DispState::DispFix) || st == State::Disp(
        DispState::DispSci,
    )) {
        "Enter digit for precision      Show"@
    } else if act == DispAction::Stay {
        "Upper Lower                    Show"@
    } else if act == DispAction::SetMode {
        "Display set to: "@ + disp_label_spec(d)
    } else if act == DispAction::Current {
        "Display is: "@ + disp_label_spec(d)
    } else {
        "Bad key? Display is: "@ + disp_label_spec(d)
    }
}

/// The whole effect of a display sub-machine step on the calculator.
pub open spec fn disp_step_v(v: CalcV, cmd: Seq<char>) -> CalcV {
    let ds = v.state->Disp_0;
    let sel = disp_sel(ds, cmd, v.disp);
    CalcV {
        state: sel.0,
        disp: sel.1,
        text: disp_status_text(sel.0, sel.2, sel.1),
        scroll: 0,
        ..v
    }
}

/// Committing the pending input into X: empty input is a no-op; a buffer
/// that does not decode reports a status error and is discarded.
pub open spec fn commit_spec(v: CalcV) -> (CalcV, bool) {
    if v.input.len() == 0 {
        (v, true)
    } else {
        match decode_spec(v.input) {
            Some(n) => ((CalcV { x: n, input: Seq::<u8>::empty(), ..v }), true),
            None => (
                (CalcV {
                    input: Seq::<u8>::empty(),
                    text: "Error: Bad number"@,
                    scroll: 0,
                    ..v
                }),
                false,
            ),
        }
    }
}

/// A binary operator: commit the input, reset the layer, snapshot LastX,
/// then drop-push the promoted result; a failure shows its message instead.
pub open spec fn bin_cmd_spec(v0: CalcV, op: BinOp) -> CalcV {
    let c = commit_spec(v0);
    if !c.1 {
        c.0
    } else {
        let v = CalcV { state: State::Base, last_x: c.0.x, ..c.0 };
        match crate::num::promote_op(op, v.y, v.x) {
            Some(res) => if crate::native::check_ok(res) {
                CalcV { x: crate::native::fix_spec(res), y: v.z, z: v.t, ..v }
            } else {
                CalcV {
                    text: "numerator or denominator beyond 999999"@,
                    scroll: 0,
                    ..v
                }
            },
            None => CalcV { text: crate::num::bin_err_text(op, v.y, v.x), scroll: 0, ..v },
        }
    }
}

impl Calc {
    /// The number of lines in the overlay text.
    pub fn lines_n(&self) -> (r: usize)
        requires
            self.wf(),
        ensures
            r == line_count(self@.text),
            1 <= r <= self@.text.len() + 1,
    {
        proof {
            lemma_line_count_bounds(self.text@);
        }
        let n = self.text.as_str().unicode_len();
        let mut count: usize = 1;
        let mut i: usize = 0;
        while i < n
            invariant
                i <= n == self.text@.len() <= 4000,
                count == line_count(self.text@.take(i as int)),
                count <= i + 1,
            decreases n - i,
        {
            proof {
                assert(self.text@.take(i + 1).drop_last() =~= self.text@.take(i as int));
            }
            if self.text.as_str().get_char(i) == '\n' {
                count = count + 1;
            }
            i = i + 1;
        }
        proof {
            assert(self.text@.take(n as int) =~= self.text@);
        }
        count
    }

    /// Commit the pending input into X.
    pub fn input_x(&mut self) -> (ok: bool)
        requires
            old(self).wf(),
        ensures
            final (self).wf(),
            (final (self)@, ok) == commit_spec(old(self)@),
    {
        if self.input.len() == 0 {
            return true;
        }
        let s = crate::text::ascii_string(&self.input);
        proof {
            crate::text::lemma_ascii_bytes_roundtrip(self.input@);
        }
        match Num::try_decode(s.as_str()) {
            Ok(n) => {
                self.x = n;
                self.input = Vec::new();
                true
            },
            Err(_) => {
                self.input = Vec::new();
                proof {
                    reveal_strlit("Error: Bad number");
                }
                self.status("Error: Bad number");
                false
            },
        }
    }
}

/// A text of at most 4000 characters keeps at most 4001 lines.
proof fn lemma_line_count_bounds(s: Seq<char>)
    ensures
        1 <= line_count(s) <= s.len() + 1,
    decreases s.len(),
{
    if s.len() > 0 {
        lemma_line_count_bounds(s.drop_last());
    }
}

} // verus!

verus! {

/// The short label of a display mode.
pub fn disp_label(d: NumDisplay) -> (r: String)
    ensures
        r@ == disp_label_spec(d),
        r@.len() <= 9,
{
    proof {
        reveal_strlit("Std");
        reveal_strlit("Raw");
        reveal_strlit("Fix(");
        reveal_strlit("Sci(");
        reveal_strlit(")");
        reveal_strlit("HexU");
        reveal_strlit("HexL");
    }
    let mut s = String::new();
    match d {
        NumDisplay::Std => {
            s.push_str("Std");
        },
        NumDisplay::Raw => {
            s.push_str("Raw");
        },
        NumDisplay::Fix(p) => {
            s.push_str("Fix(");
            let mut v: Vec<u8> = Vec::new();
            crate::text::push_u64_digits(&mut v, p as u64);
            proof {
                crate::repr::lemma_digits_of_len(p as int);
                crate::dec::lemma_n_digits_bounds(if p >= 1 {
                    p as int
                } else {
                    1
                });
                lemma_small_digits(p as int);
            }
            let ds = crate::text::ascii_string(&v);
            s.push_str(ds.as_str());
            s.push(')');
            proof {
                assert(s@ =~= disp_label_spec(d));
            }
        },
        NumDisplay::Sci(p) => {
            s.push_str("Sci(");
            let mut v: Vec<u8> = Vec::new();
            crate::text::push_u64_digits(&mut v, p as u64);
            proof {
                crate::repr::lemma_digits_of_len(p as int);
                lemma_small_digits(p as int);
            }
            let ds = crate::text::ascii_string(&v);
            s.push_str(ds.as_str());
            s.push(')');
            proof {
                assert(s@ =~= disp_label_spec(d));
            }
        },
        NumDisplay::HexU => {
            s.push_str("HexU");
        },
        NumDisplay::HexL => {
            s.push_str("HexL");
        },
    }
    s
}

/// A byte-sized number has at most three digits, all ASCII.
proof fn lemma_small_digits(p: int)
    requires
        0 <= p <= 255,
    ensures
        crate::text::digits_of(p).len() <= 3,
        crate::text::all_ascii(crate::text::digits_of(p)),
        crate::text::chars_of(crate::text::digits_of(p)).len() <= 3,
{
    crate::text::lemma_digits_ascii_all(p);
    crate::repr::lemma_digits_of_len(p);
    if p >= 1 {
        crate::dec::lemma_n_digits_bounds(p);
        if crate::dec::n_digits(p) > 3 {
            crate::dec::lemma_pow10_mono(3, (crate::dec::n_digits(p) - 1) as nat);
            assert(crate::dec::pow10(3) == 1000) by {
                reveal_with_fuel(crate::dec::pow10, 5);
            }
        }
    }
}

impl Calc {
    /// One step of the display sub-machine; leaves the calculator untouched
    /// and reports false when the sub-machine is not active.
    pub fn handle_disp(&mut self, command: &str) -> (r: bool)
        requires
            old(self).wf(),
            command@.len() > 0,
        ensures
            final (self).wf(),
            r == (old(self)@.state is Disp),
            old(self)@.state is Disp ==> final (self)@ == disp_step_v(old(self)@, command@),
            !(old(self)@.state is Disp) ==> final (self)@ == old(self)@,
    {
        let ds = match self.state {
            State::Disp(d) => d,
            _ => {
                return false;
            },
        };
        let c0 = command.get_char(0);
        let one = command.unicode_len() == 1;
        let digit_cmd = one && '0' <= c0 && c0 <= '9';
        let (st, dp, act): (State, NumDisplay, DispAction) = if matches!(ds, DispState::DispStart)
            && crate::text::str_eq(command, "A") {
            (State::Base, NumDisplay::Std, DispAction::SetMode)
        } else if matches!(ds, DispState::DispStart) && crate::text::str_eq(command, "B") {
            (State::Disp(DispState::DispFix), self.disp, DispAction::Stay)
        } else if matches!(ds, DispState::DispStart) && crate::text::str_eq(command, "C") {
            (State::Disp(DispState::DispSci), self.disp, DispAction::Stay)
        } else if matches!(ds, DispState::DispStart) && crate::text::str_eq(command, "D") {
            (State::Disp(DispState::DispHex), self.disp, DispAction::Stay)
        } else if matches!(ds, DispState::DispStart) && crate::text::str_eq(command, "E") {
            (State::Base, NumDisplay::Raw, DispAction::SetMode)
        } else if matches!(ds, DispState::DispFix) && digit_cmd {
            (State::Base, NumDisplay::Fix((c0 as u8) - 48), DispAction::SetMode)
        } else if matches!(ds, DispState::DispSci) && digit_cmd {
            (State::Base, NumDisplay::Sci((c0 as u8) - 48), DispAction::SetMode)
        } else if matches!(ds, DispState::DispHex) && crate::text::str_eq(command, "A") {
            (State::Base, NumDisplay::HexU, DispAction::SetMode)
        } else if matches!(ds, DispState::DispHex) && crate::text::str_eq(command, "B") {
            (State::Base, NumDisplay::HexL, DispAction::SetMode)
        } else if crate::text::str_eq(command, "F") {
            (State::Base, self.disp, DispAction::Current)
        } else {
            (State::Base, self.disp, DispAction::Error)
        };
        proof {
            assert(command@[0] == c0);
            assert(one <==> command@.len() == 1);
            assert(digit_cmd == is_digit_cmd(command@));
            let sel = disp_sel(ds, command@, self.disp);
            assert(st == sel.0 && dp == sel.1 && act == sel.2);
            reveal_strlit("Enter digit for precision      Show");
            reveal_strlit("Upper Lower                    Show");
            reveal_strlit("Display set to: ");
            reveal_strlit("Display is: ");
            reveal_strlit("Bad key? Display is: ");
        }
        let mut text = String::new();
        if matches!(act, DispAction::Stay) && (matches!(st, State::Disp(DispState::DispFix))
            || matches!(st, State::Disp(DispState::DispSci))) {
            text.push_str("Enter digit for precision      Show");
        } else if matches!(act, DispAction::Stay) {
            text.push_str("Upper Lower                    Show");
        } else if matches!(act, DispAction::SetMode) {
            text.push_str("Display set to: ");
            let lb = disp_label(dp);
            text.push_str(lb.as_str());
        } else if matches!(act, DispAction::Current) {
            text.push_str("Display is: ");
            let lb = disp_label(dp);
            text.push_str(lb.as_str());
        } else {
            text.push_str("Bad key? Display is: ");
            let lb = disp_label(dp);
            text.push_str(lb.as_str());
        }
        self.state = st;
        self.disp = dp;
        self.text = text;
        self.scroll = 0;
        proof {
            assert(self@ =~= disp_step_v(old(self)@, command@));
        }
        true
    }
}

} // verus!

verus! {

/// One unary operation on a number.
#[verifier::rlimit(100)]
#[verifier::spinoff_prover]
fn apply_un(x: crate::num::Num, tag: UnOp) -> (r: Result<crate::num::Num, crate::native::NativeError>)
    requires
        x.wf(),
    ensures
        match r {
            Ok(out) => un_result(tag, x@) matches Some(v) && crate::native::check_ok(v) && out@
                == crate::native::fix_spec(v) && out.wf(),
            Err(e) => (un_result(tag, x@) is None || (un_result(tag, x@) matches Some(v)
                && !crate::native::check_ok(v))) && e.0@ == un_err_text(x@),
        },
{
    proof {
        x.lemma_wf();
    }
    match tag {
        UnOp::Chs => x.chs(),
        UnOp::Abs => x.abs(),
        UnOp::IntPart => x.int_part(),
        UnOp::Round => x.round(),
        UnOp::Recip => x.recip(),
        UnOp::Frac => x.frac(),
    }
}

/// The unary operations of the dispatch table.
#[derive(Clone, Copy, Debug, PartialEq, Eq, Structural)]
pub enum UnOp {
    Chs,
    Abs,
    Recip,
    IntPart,
    Frac,
    Round,
}

/// The value a unary operation yields, when it yields one.
pub open spec fn un_result(tag: UnOp, x: Native) -> Option<Native> {
    match tag {
        UnOp::Chs => Some(crate::num::chs_spec(x)),
        UnOp::Abs => Some(crate::num::abs_spec(x)),
        UnOp::IntPart => Some(crate::num::int_spec(x)),
        UnOp::Round => Some(crate::num::round_num_spec(x)),
        UnOp::Recip => crate::num::recip_spec(x),
        UnOp::Frac => crate::num::frac_spec(x),
    }
}

/// The message when a unary operation fails.
pub open spec fn un_err_text(x: Native) -> Seq<char> {
    if x is Quotient {
        "numerator or denominator beyond 999999"@
    } else {
        "undefined number"@
    }
}

/// A unary operator command: commit, reset the layer, replace X.
pub open spec fn un_cmd_spec(v0: CalcV, tag: UnOp) -> CalcV {
    let c = commit_spec(v0);
    if !c.1 {
        c.0
    } else {
        let v = CalcV { state: State::Base, ..c.0 };
        match un_result(tag, v.x) {
            Some(res) => if crate::native::check_ok(res) {
                CalcV { x: crate::native::fix_spec(res), ..v }
            } else {
                CalcV { text: un_err_text(v.x), scroll: 0, ..v }
            },
            None => CalcV { text: un_err_text(v.x), scroll: 0, ..v },
        }
    }
}

/// Appending one input byte, with the stack push on first entry.
pub open spec fn add_input_v(v: CalcV, b: u8) -> CalcV {
    if v.input.len() == 0 {
        CalcV {
            t: v.z,
            z: v.y,
            y: v.x,
            x: Native::Integer(0),
            input: seq![b],
            ..v
        }
    } else {
        CalcV { input: v.input.push(b), ..v }
    }
}

/// The decimal-point command: a second point converts a short integer entry
/// into a quotient; conflicts report a status error.
pub open spec fn dot_spec(v0: CalcV) -> CalcV {
    let v = CalcV { state: State::Base, ..v0 };
    let pdot = crate::parse::find2_spec(v.input, 0, 46, 46);
    if pdot < v.input.len() {
        if pdot + 1 == v.input.len() {
            if pdot > 5 {
                CalcV { text: "Numerator too large"@, scroll: 0, ..v }
            } else {
                CalcV { input: v.input.take(pdot).push(47u8), ..v }
            }
        } else {
            CalcV { text: "Integer part not supported"@, scroll: 0, ..v }
        }
    } else if crate::parse::find2_spec(v.input, 0, 47, 47) < v.input.len() {
        CalcV { text: "Already a fraction"@, scroll: 0, ..v }
    } else {
        add_input_v(v, 46)
    }
}

/// The exponent-marker command: rejected inside a fraction and after an
/// existing marker beyond any imaginary-unit position.
pub open spec fn e_cmd_spec(v0: CalcV) -> CalcV {
    let v = CalcV { state: State::Base, ..v0 };
    if crate::parse::find2_spec(v.input, 0, 47, 47) < v.input.len() {
        CalcV { text: "Error: No 'e' for fractions"@, scroll: 0, ..v }
    } else {
        let pi = crate::parse::find2_spec(v.input, 0, 105, 105);
        let pos: int = if pi < v.input.len() {
            pi
        } else {
            0
        };
        if crate::parse::find2_spec(v.input, pos, 101, 101) < v.input.len() {
            CalcV { text: "Error: Duplicate 'e'"@, scroll: 0, ..v }
        } else {
            add_input_v(v, 101)
        }
    }
}

/// The delete command: clear X when no entry is pending, else drop the last
/// input byte.
pub open spec fn del_spec(v: CalcV) -> CalcV {
    if v.input.len() == 0 && v.x != Native::Integer(0) {
        CalcV { x: Native::Integer(0), ..v }
    } else if v.input.len() > 0 {
        CalcV { input: v.input.drop_last(), ..v }
    } else {
        v
    }
}

/// Does the command carry the long-press suffix?
pub open spec fn is_long(cmd: Seq<char>) -> bool {
    cmd.len() >= 5 && cmd.subrange(cmd.len() - 5, cmd.len() as int) == seq![
        '_',
        'l',
        'o',
        'n',
        'g',
    ]
}

/// The dispatch of a command once the overlay has been dealt with (the
/// overlay text is already cleared here).
pub open spec fn dispatch_spec(v: CalcV, cmd: Seq<char>, phrase: Seq<char>) -> (CalcV, bool) {
    if is_long(cmd) {
        (
            (CalcV {
                text: phrase,
                scroll: if cmd == "ENTER_long"@ {
                    4
                } else {
                    1
                },
                ..v
            }),
            true,
        )
    } else if cmd.len() > 0 && '0' <= cmd[0] <= '9' {
        (add_input_v(v, cmd[0] as u8), true)
    } else {
        table_spec(v, cmd)
    }
}

/// The command table: the named commands and their handlers.
pub open spec fn table_spec(v: CalcV, cmd: Seq<char>) -> (CalcV, bool) {
    if cmd == "E"@ {
        (e_cmd_spec(v), true)
    } else if cmd == "ENTER"@ {
        let v1 = CalcV { state: State::Base, ..v };
        if v1.input.len() == 0 {
            ((CalcV { t: v1.z, z: v1.y, y: v1.x, ..v1 }), true)
        } else {
            (commit_spec(v1).0, true)
        }
    } else if cmd == "DISP"@ {
        (
            (CalcV {
                state: State::Disp(DispState::DispStart),
                text: " Std   Fix   Sci   Hex   Raw   Show"@,
                scroll: 0,
                ..v
            }),
            true,
        )
    } else if cmd == "STO"@ {
        ((CalcV { state: State::Sto, ..v }), true)
    } else if cmd == "RCL"@ {
        ((CalcV { state: State::Rcl, ..v }), true)
    } else if cmd == "XY"@ {
        let c = commit_spec(v);
        if !c.1 {
            (c.0, true)
        } else {
            let v1 = CalcV { state: State::Base, ..c.0 };
            ((CalcV { x: v1.y, y: v1.x, ..v1 }), true)
        }
    } else if cmd == "XZ"@ {
        let c = commit_spec(v);
        if !c.1 {
            (c.0, true)
        } else {
            let v1 = CalcV { state: State::Base, ..c.0 };
            ((CalcV { x: v1.z, z: v1.x, ..v1 }), true)
        }
    } else if cmd == "R_UP"@ {
        let c = commit_spec(v);
        if !c.1 {
            (c.0, true)
        } else {
            let v1 = CalcV { state: State::Base, ..c.0 };
            ((CalcV { t: v1.z, z: v1.y, y: v1.x, x: v1.t, ..v1 }), true)
        }
    } else if cmd == "R_DOWN"@ {
        let c = commit_spec(v);
        if !c.1 {
            (c.0, true)
        } else {
            let v1 = CalcV { state: State::Base, ..c.0 };
            ((CalcV { t: v1.x, z: v1.t, y: v1.z, x: v1.y, ..v1 }), true)
        }
    } else if cmd == "LAST_X"@ {
        let c = commit_spec(v);
        if !c.1 {
            (c.0, true)
        } else {
            let v1 = CalcV { state: State::Base, ..c.0 };
            ((CalcV { t: v1.z, z: v1.y, y: v1.x, x: v1.last_x, ..v1 }), true)
        }
    } else if cmd == "DEL"@ {
        (del_spec(v), true)
    } else if cmd == "ADD"@ {
        (bin_cmd_spec(v, BinOp::Add), true)
    } else if cmd == "SUB"@ {
        (bin_cmd_spec(v, BinOp::Sub), true)
    } else if cmd == "MUL"@ {
        (bin_cmd_spec(v, BinOp::Mul), true)
    } else if cmd == "DIV"@ {
        (bin_cmd_spec(v, BinOp::Div), true)
    } else if cmd == "CHS"@ {
        (un_cmd_spec(v, UnOp::Chs), true)
    } else if cmd == "ABS"@ {
        (un_cmd_spec(v, UnOp::Abs), true)
    } else if cmd == "RECIP"@ {
        (un_cmd_spec(v, UnOp::Recip), true)
    } else if cmd == "INT"@ {
        (un_cmd_spec(v, UnOp::IntPart), true)
    } else if cmd == "FRAC"@ {
        (un_cmd_spec(v, UnOp::Frac), true)
    } else if cmd == "ROUND"@ {
        (un_cmd_spec(v, UnOp::Round), true)
    } else if cmd == "DOT"@ {
        (dot_spec(v), true)
    } else if cmd == "I"@ {
        (add_input_v(CalcV { state: State::Base, ..v }, 105), true)
    } else if cmd == "ALT"@ {
        ((CalcV { state: State::Alt, ..v }), true)
    } else if cmd == "INV"@ {
        ((CalcV { state: State::Inv, ..v }), true)
    } else if cmd == "BASE"@ {
        ((CalcV { state: State::Base, ..v }), true)
    } else if cmd == "META"@ {
        (
            (CalcV {
                state: match v.state {
                    State::Base => State::Alt,
                    State::Alt => State::Inv,
                    _ => State::Base,
                },
                ..v
            }),
            true,
        )
    } else if cmd == "_INPUT_X"@ {
        (commit_spec(v).0, true)
    } else {
        (v, false)
    }
}

/// One whole dispatch step: the display sub-machine first; then, under a
/// multi-line overlay, scrolling or a dismissal that consumes the command
/// without further processing; then the long-press help, digit entry, and
/// the command table.
pub open spec fn step_spec(v: CalcV, cmd: Seq<char>, phrase: Seq<char>) -> (CalcV, bool) {
    if v.state is Disp {
        (disp_step_v(v, cmd), true)
    } else {
        let ln = line_count(v.text);
        if ln > 1 {
            if cmd == "2"@ || cmd == "R_UP"@ {
                (
                    (CalcV {
                        scroll: if v.scroll >= 1 {
                            (v.scroll - 1) as nat
                        } else {
                            0
                        },
                        ..v
                    }),
                    false,
                )
            } else if cmd == "0"@ || cmd == "R_DOWN"@ {
                let cap: int = if ln > 2 {
                    ln - 2
                } else {
                    0
                };
                (
                    (CalcV {
                        scroll: (if v.scroll <= cap {
                            v.scroll + 1
                        } else {
                            (cap + 1) as nat
                        }) as nat,
                        ..v
                    }),
                    false,
                )
            } else {
                ((CalcV { text: Seq::<char>::empty(), scroll: 0, ..v }), false)
            }
        } else {
            let v2 = CalcV { text: Seq::<char>::empty(), scroll: 0, ..v };
            dispatch_spec(v2, cmd, phrase)
        }
    }
}

} // verus!

verus! {

impl Calc {
    /// Commit, reset the layer, snapshot LastX, then drop-push the promoted
    /// binary result; a failed operation reports its message instead.
    fn bin_cmd(&mut self, op: BinOp)
        requires
            old(self).wf(),
        ensures
            final (self).wf(),
            final (self)@ == bin_cmd_spec(old(self)@, op),
    {
        proof {
            reveal_strlit("numerator or denominator beyond 999999");
            reveal_strlit("undefined number");
        }
        if !self.input_x() {
            return ;
        }
        self.state = State::Base;
        self.last_x = self.x;
        match self.y.apply_op(op, self.x) {
            Ok(n) => {
                self.down_with_x(n);
            },
            Err(e) => {
                self.scroll = 0;
                self.text = e.0;
            },
        }
    }

    /// Commit, reset the layer, then replace X by a unary result; a failed
    /// operation reports its message instead.
    fn un_cmd(&mut self, tag: UnOp)
        requires
            old(self).wf(),
        ensures
            final (self).wf(),
            final (self)@ == un_cmd_spec(old(self)@, tag),
    {
        proof {
            reveal_strlit("numerator or denominator beyond 999999");
            reveal_strlit("undefined number");
        }
        if !self.input_x() {
            return ;
        }
        self.state = State::Base;
        match apply_un(self.x, tag) {
            Ok(n) => {
                self.x = n;
            },
            Err(e) => {
                self.scroll = 0;
                self.text = e.0;
            },
        }
    }

    /// Handle one command; the result asks the host for visual feedback.
    /// `phrase` is the locale help text for this command, consulted only by
    /// the long-press branch.
    #[verifier::rlimit(100)]
    #[verifier::spinoff_prover]
    pub fn handle_command(&mut self, command: &str, phrase: &str) -> (r: bool)
        requires
            old(self).wf(),
            command@.len() > 0,
            phrase@.len() <= 4000,
        ensures
            final (self).wf(),
            (final (self)@, r) == step_spec(old(self)@, command@, phrase@),
    {
        if matches!(self.state, State::Disp(_)) {
            return self.handle_disp(command);
        }
        let ln = self.lines_n();
        let is_two = crate::text::str_eq(command, "2");
        let is_rup = crate::text::str_eq(command, "R_UP");
        let is_zero = crate::text::str_eq(command, "0");
        let is_rdown = crate::text::str_eq(command, "R_DOWN");
        if ln > 1 {
            if is_two || is_rup {
                self.scroll = if self.scroll >= 1 {
                    self.scroll - 1
                } else {
                    0
                };
            } else if is_zero || is_rdown {
                let cap: usize = if ln > 2 {
                    ln - 2
                } else {
                    0
                };
                self.scroll = if self.scroll <= cap {
                    self.scroll + 1
                } else {
                    cap + 1
                };
            } else {
                // dismiss the overlay; the command gets no further
                // processing this cycle
                proof {
                    reveal_strlit("");
                }
                self.status("");
                proof {
                    assert(self@.text =~= Seq::<char>::empty());
                    assert(self@ == (CalcV {
                        text: Seq::<char>::empty(),
                        scroll: 0,
                        ..old(self)@
                    }));
                }
            }
            return false;
        }
        proof {
            reveal_strlit("");
        }
        self.status("");
        proof {
            assert(self@.text =~= Seq::<char>::empty());
            assert(self@ == (CalcV { text: Seq::<char>::empty(), scroll: 0, ..old(self)@ }));
        }
        // the long-press suffix
        let n = command.unicode_len();
        let long = n >= 5 && command.get_char(n - 5) == '_' && command.get_char(n - 4) == 'l'
            && command.get_char(n - 3) == 'o' && command.get_char(n - 2) == 'n'
            && command.get_char(n - 1) == 'g';
        proof {
            if n >= 5 {
                assert(command@.subrange(n - 5, n as int) =~= seq![
                    command@[n - 5],
                    command@[n - 4],
                    command@[n - 3],
                    command@[n - 2],
                    command@[n - 1],
                ]);
            }
            assert(long == is_long(command@));
        }
        if long {
            let mut t = String::new();
            t.push_str(phrase);
            self.text = t;
            self.scroll = if crate::text::str_eq(command, "ENTER_long") {
                4
            } else {
                1
            };
            return true;
        }
        let c0 = command.get_char(0);
        if '0' <= c0 && c0 <= '9' {
            let mut s = String::new();
            s.push(c0);
            let ss = s.as_str();
            proof {
                assert(ss@ =~= seq![c0]);
                crate::text::lemma_ascii_str_bytes_single(ss, c0);
            }
            self.add_input(ss);
            proof {
                assert(self@ =~= add_input_v(
                    (CalcV { text: Seq::<char>::empty(), scroll: 0, ..old(self)@ }),
                    c0 as u8,
                ));
            }
            return true;
        }
        let tr = self.run_table(command);
        proof {
            assert((final (self)@, tr) == step_spec(old(self)@, command@, phrase@));
        }
        return tr;
    }

    /// Look the command up in the table and run its handler.
    #[verifier::rlimit(100)]
    fn run_table(&mut self, command: &str) -> (r: bool)
        requires
            old(self).wf(),
        ensures
            final (self).wf(),
            (final (self)@, r) == table_spec(old(self)@, command@),
    {
        let is_rup = crate::text::str_eq(command, "R_UP");
        let is_rdown = crate::text::str_eq(command, "R_DOWN");
        if crate::text::str_eq(command, "E") {
            self.e_cmd();
            return true;
        }
        if crate::text::str_eq(command, "ENTER") {
            self.state = State::Base;
            if self.input.len() == 0 {
                let x = self.x;
                self.up_with_x(x);
            } else {
                let _ = self.input_x();
            }
            return true;
        }
        if crate::text::str_eq(command, "DISP") {
            self.state = State::Disp(DispState::DispStart);
            proof {
                reveal_strlit(" Std   Fix   Sci   Hex   Raw   Show");
            }
            self.status(" Std   Fix   Sci   Hex   Raw   Show");
            return true;
        }
        if crate::text::str_eq(command, "STO") {
            self.state = State::Sto;
            return true;
        }
        if crate::text::str_eq(command, "RCL") {
            self.state = State::Rcl;
            return true;
        }
        if crate::text::str_eq(command, "XY") {
            if self.input_x() {
                self.state = State::Base;
                let tmp = self.x;
                self.x = self.y;
                self.y = tmp;
            }
            return true;
        }
        if crate::text::str_eq(command, "XZ") {
            if self.input_x() {
                self.state = State::Base;
                let tmp = self.x;
                self.x = self.z;
                self.z = tmp;
            }
            return true;
        }
        if is_rup {
            if self.input_x() {
                self.state = State::Base;
                let t0 = self.t;
                self.t = self.z;
                self.z = self.y;
                self.y = self.x;
                self.x = t0;
            }
            return true;
        }
        if is_rdown {
            if self.input_x() {
                self.state = State::Base;
                let t0 = self.t;
                self.t = self.x;
                self.x = self.y;
                self.y = self.z;
                self.z = t0;
            }
            return true;
        }
        if crate::text::str_eq(command, "LAST_X") {
            if self.input_x() {
                self.state = State::Base;
                let lx = self.last_x;
                self.up_with_x(lx);
            }
            return true;
        }
        if crate::text::str_eq(command, "DEL") {
            if self.input.len() == 0 && !(self.x == Num::zero()) {
                self.x = Num::zero();
            } else if self.input.len() > 0 {
                self.input.pop();
            }
            return true;
        }
        if crate::text::str_eq(command, "ADD") {
            self.bin_cmd(BinOp::Add);
            return true;
        }
        if crate::text::str_eq(command, "SUB") {
            self.bin_cmd(BinOp::Sub);
            return true;
        }
        if crate::text::str_eq(command, "MUL") {
            self.bin_cmd(BinOp::Mul);
            return true;
        }
        if crate::text::str_eq(command, "DIV") {
            self.bin_cmd(BinOp::Div);
            return true;
        }
        if crate::text::str_eq(command, "CHS") {
            self.un_cmd(UnOp::Chs);
            return true;
        }
        if crate::text::str_eq(command, "ABS") {
            self.un_cmd(UnOp::Abs);
            return true;
        }
        if crate::text::str_eq(command, "RECIP") {
            self.un_cmd(UnOp::Recip);
            return true;
        }
        if crate::text::str_eq(command, "INT") {
            self.un_cmd(UnOp::IntPart);
            return true;
        }
        if crate::text::str_eq(command, "FRAC") {
            self.un_cmd(UnOp::Frac);
            return true;
        }
        if crate::text::str_eq(command, "ROUND") {
            self.un_cmd(UnOp::Round);
            return true;
        }
        if crate::text::str_eq(command, "DOT") {
            self.dot_cmd();
            return true;
        }
        if crate::text::str_eq(command, "I") {
            self.state = State::Base;
            proof {
                reveal_strlit("i");
                assert("i"@ =~= seq!['i']);
                crate::text::lemma_ascii_str_bytes_single("i", 'i');
            }
            self.add_input("i");
            return true;
        }
        if crate::text::str_eq(command, "ALT") {
            self.state = State::Alt;
            return true;
        }
        if crate::text::str_eq(command, "INV") {
            self.state = State::Inv;
            return true;
        }
        if crate::text::str_eq(command, "BASE") {
            self.state = State::Base;
            return true;
        }
        if crate::text::str_eq(command, "META") {
            self.state = match self.state {
                State::Base => State::Alt,
                State::Alt => State::Inv,
                _ => State::Base,
            };
            return true;
        }
        if crate::text::str_eq(command, "_INPUT_X") {
            let _ = self.input_x();
            return true;
        }
        false
    }

    /// The exponent-marker command.
    fn e_cmd(&mut self)
        requires
            old(self).wf(),
        ensures
            final (self).wf(),
            final (self)@ == e_cmd_spec(old(self)@),
    {
        self.state = State::Base;
        let slash = crate::parse::find2(&self.input, 0, 47, 47);
        if slash < self.input.len() {
            proof {
                reveal_strlit("Error: No 'e' for fractions");
            }
            self.status("Error: No 'e' for fractions");
            return ;
        }
        let pi = crate::parse::find2(&self.input, 0, 105, 105);
        let pos: usize = if pi < self.input.len() {
            pi
        } else {
            0
        };
        let pe = crate::parse::find2(&self.input, pos, 101, 101);
        if pe < self.input.len() {
            proof {
                reveal_strlit("Error: Duplicate 'e'");
            }
            self.status("Error: Duplicate 'e'");
            return ;
        }
        proof {
            reveal_strlit("e");
            assert("e"@ =~= seq!['e']);
            crate::text::lemma_ascii_str_bytes_single("e", 'e');
        }
        self.add_input("e");
        proof {
            assert(final (self)@ =~= e_cmd_spec(old(self)@));
        }
    }

    /// The decimal-point command.
    fn dot_cmd(&mut self)
        requires
            old(self).wf(),
        ensures
            final (self).wf(),
            final (self)@ == dot_spec(old(self)@),
    {
        self.state = State::Base;
        let pdot = crate::parse::find2(&self.input, 0, 46, 46);
        if pdot < self.input.len() {
            if pdot + 1 == self.input.len() {
                if pdot > 5 {
                    proof {
                        reveal_strlit("Numerator too large");
                    }
                    self.status("Numerator too large");
                } else {
                    let mut nv = crate::parse::sub_vec(&self.input, 0, pdot);
                    nv.push(47);
                    proof {
                        assert(nv@ =~= self.input@.take(pdot as int).push(47u8));
                    }
                    self.input = nv;
                }
            } else {
                proof {
                    reveal_strlit("Integer part not supported");
                }
                self.status("Integer part not supported");
            }
            return ;
        }
        let slash = crate::parse::find2(&self.input, 0, 47, 47);
        if slash < self.input.len() {
            proof {
                reveal_strlit("Already a fraction");
            }
            self.status("Already a fraction");
            return ;
        }
        proof {
            reveal_strlit(".");
            assert("."@ =~= seq!['.']);
            crate::text::lemma_ascii_str_bytes_single(".", '.');
        }
        self.add_input(".");
        proof {
            assert(final (self)@ =~= dot_spec(old(self)@));
        }
    }
}

} // verus!

verus! {

/// First newline at or after `i`.
pub open spec fn find_nl(s: Seq<char>, i: int) -> int
    decreases s.len() - i,
{
    if 0 <= i < s.len() {
        if s[i] == '\n' {
            i
        } else {
            find_nl(s, i + 1)
        }
    } else {
        s.len() as int
    }
}

/// The lines of a text, split at newlines (an empty text is one empty line).
pub open spec fn lines_of(s: Seq<char>) -> Seq<Seq<char>>
    decreases s.len(),
{
    let p = find_nl(s, 0);
    if 0 <= p < s.len() {
        seq![s.take(p)] + lines_of(s.skip(p + 1))
    } else {
        seq![s]
    }
}

/// Space-padded to a width (a longer text stays whole).
pub open spec fn pad_chars(s: Seq<char>, w: int) -> Seq<char> {
    s + Seq::new(if s.len() < w {
        (w - s.len()) as nat
    } else {
        0
    }, |i: int| ' ')
}

/// The shift-layer tag of the top line.
pub open spec fn meta_text(st: State) -> Seq<char> {
    match st {
        State::Alt => "ALT"@,
        State::Inv => "INV"@,
        State::Sto => "STO"@,
        State::Rcl => "RCL"@,
        _ => "    "@,
    }
}

/// The five display lines: the four registers (or the overlay window) and
/// the scroll line, joined by newlines.
pub open spec fn display_spec(v: CalcV) -> Seq<char> {
    let lines = lines_of(v.text);
    let n = lines.len() as int;
    let sc: int = if v.scroll < n {
        v.scroll as int
    } else {
        n - 1
    };
    let tl: Seq<char> = if sc >= 4 && n > 4 {
        lines[sc - 4]
    } else {
        pad_chars(crate::text::chars_of(crate::disp::disp_native_spec(v.t, v.disp)), 29) + " "@
            + meta_text(v.state)
    };
    let zl: Seq<char> = if sc >= 3 && n > 3 {
        lines[sc - 3]
    } else {
        pad_chars(crate::text::chars_of(crate::disp::disp_native_spec(v.z, v.disp)), 33)
    };
    let yl: Seq<char> = if sc >= 2 && n > 2 {
        lines[sc - 2]
    } else {
        pad_chars(crate::text::chars_of(crate::disp::disp_native_spec(v.y, v.disp)), 33)
    };
    let xl: Seq<char> = if sc >= 1 && n > 1 {
        lines[sc - 1]
    } else if v.input.len() == 0 {
        pad_chars(crate::text::chars_of(crate::disp::disp_native_spec(v.x, v.disp)), 33)
    } else {
        "\u{203a} "@ + pad_chars(crate::text::chars_of(v.input.push(95u8)), 33)
    };
    let sl: Seq<char> = lines[sc];
    tl + "\n"@ + zl + "\n"@ + yl + "\n"@ + xl + "\n"@ + sl
}

/// Split a character vector into its lines, from position `i`.
fn split_lines(cs: &Vec<char>, i: usize) -> (r: Vec<String>)
    requires
        i <= cs@.len(),
    ensures
        r.deep_view() == lines_of(cs@.skip(i as int)),
        r@.len() >= 1,
    decreases cs@.len() - i,
{
    let mut p = i;
    while p < cs.len() && cs[p] != '\n'
        invariant
            i <= p <= cs@.len(),
            find_nl(cs@, i as int) == find_nl(cs@, p as int),
            forall|j: int| i <= j < p ==> cs@[j] != '\n',
        decreases cs@.len() - p,
    {
        p = p + 1;
    }
    let mut line = String::new();
    let mut j = i;
    while j < p
        invariant
            i <= j <= p <= cs@.len(),
            line@ == cs@.subrange(i as int, j as int),
        decreases p - j,
    {
        line.push(cs[j]);
        proof {
            assert(line@ =~= cs@.subrange(i as int, j + 1));
        }
        j = j + 1;
    }
    proof {
        lemma_find_nl_skip(cs@, i as int);
    }
    if p == cs.len() {
        let mut r: Vec<String> = Vec::new();
        r.push(line);
        proof {
            assert(line@ =~= cs@.skip(i as int));
            assert(r.deep_view() =~~= lines_of(cs@.skip(i as int)));
        }
        r
    } else {
        let mut rest = split_lines(cs, p + 1);
        rest.insert(0, line);
        proof {
            assert(cs@.skip(i as int).take(find_nl(cs@.skip(i as int), 0)) =~= cs@.subrange(
                i as int,
                p as int,
            ));
            assert(cs@.skip(i as int).skip(find_nl(cs@.skip(i as int), 0) + 1) =~= cs@.skip(
                p + 1,
            ));
            assert(rest.deep_view() =~~= lines_of(cs@.skip(i as int)));
        }
        rest
    }
}

/// Splitting commutes with dropping a prefix.
proof fn lemma_find_nl_skip(s: Seq<char>, i: int)
    requires
        0 <= i <= s.len(),
    ensures
        find_nl(s.skip(i), 0) == find_nl(s, i) - i,
    decreases s.len() - i,
{
    lemma_find_nl_skip_rec(s, i, i);
}

proof fn lemma_find_nl_skip_rec(s: Seq<char>, i: int, k: int)
    requires
        0 <= i <= k <= s.len(),
    ensures
        find_nl(s.skip(i), k - i) == find_nl(s, k) - i,
    decreases s.len() - k,
{
    if k < s.len() {
        assert(s.skip(i)[k - i] == s[k]);
        if s[k] != '\n' {
            lemma_find_nl_skip_rec(s, i, k + 1);
        }
    }
}

/// The characters of a text.
fn chars_vec(s: &str) -> (r: Vec<char>)
    ensures
        r@ == s@,
{
    let n = s.unicode_len();
    let mut v: Vec<char> = Vec::new();
    let mut i: usize = 0;
    while i < n
        invariant
            i <= n == s@.len(),
            v@ == s@.take(i as int),
        decreases n - i,
    {
        v.push(s.get_char(i));
        proof {
            assert(v@ =~= s@.take(i + 1));
        }
        i = i + 1;
    }
    proof {
        assert(s@.take(n as int) =~= s@);
    }
    v
}

/// Pad a text with spaces to a width.
fn pad_width(s: String, w: usize) -> (r: String)
    ensures
        r@ == pad_chars(s@, w as int),
{
    let mut r = s;
    let ghost orig = r@;
    let mut n = r.unicode_len();
    while n < w
        invariant
            n == r@.len(),
            pad_chars(orig, w as int) == pad_chars(r@, w as int),
        decreases w - n,
    {
        r.push(' ');
        n = n + 1;
        proof {
            assert(pad_chars(r@.drop_last(), w as int) =~= pad_chars(r@, w as int));
        }
    }
    proof {
        assert(pad_chars(r@, w as int) =~= r@);
        assert(r@ == pad_chars(orig, w as int));
    }
    r
}

impl Calc {
    /// A register line: the value padded to the width.
    fn reg_line(n: &Num, disp: NumDisplay, w: usize) -> (r: String)
        requires
            n.wf(),
        ensures
            r@ == pad_chars(
                crate::text::chars_of(crate::disp::disp_native_spec(n@, disp)),
                w as int,
            ),
    {
        pad_width(n.disp(disp), w)
    }

    /// Render the five display lines.
    #[verifier::rlimit(100)]
    #[verifier::spinoff_prover]
    pub fn display(&self) -> (r: String)
        requires
            self.wf(),
        ensures
            r@ == display_spec(self@),
    {
        let cs = chars_vec(self.text.as_str());
        let lines = split_lines(&cs, 0);
        proof {
            assert(cs@.skip(0) =~= cs@);
        }
        let n = lines.len();
        let sc: usize = if self.scroll < n {
            self.scroll
        } else {
            n - 1
        };
        let tl: String = if sc >= 4 && n > 4 {
            lines[sc - 4].clone()
        } else {
            let mut t = Self::reg_line(&self.t, self.disp, 29);
            t.push(' ');
            let meta: &str = match self.state {
                State::Alt => "ALT",
                State::Inv => "INV",
                State::Sto => "STO",
                State::Rcl => "RCL",
                _ => "    ",
            };
            t.push_str(meta);
            proof {
                reveal_strlit(" ");
                assert(t@ =~= pad_chars(
                    crate::text::chars_of(crate::disp::disp_native_spec(self@.t, self@.disp)),
                    29,
                ) + " "@ + meta_text(self@.state));
            }
            t
        };
        let zl: String = if sc >= 3 && n > 3 {
            lines[sc - 3].clone()
        } else {
            Self::reg_line(&self.z, self.disp, 33)
        };
        let yl: String = if sc >= 2 && n > 2 {
            lines[sc - 2].clone()
        } else {
            Self::reg_line(&self.y, self.disp, 33)
        };
        let xl: String = if sc >= 1 && n > 1 {
            lines[sc - 1].clone()
        } else if self.input.len() == 0 {
            Self::reg_line(&self.x, self.disp, 33)
        } else {
            let mut iv = self.input.clone();
            iv.push(95);
            proof {
                assert(iv@ =~= self@.input.push(95u8));
            }
            let mut t = String::new();
            t.push('\u{203a}');
            t.push(' ');
            let l = pad_width(crate::text::ascii_string(&iv), 33);
            t.push_str(l.as_str());
            proof {
                reveal_strlit("\u{203a} ");
                assert(t@ =~= "\u{203a} "@ + pad_chars(
                    crate::text::chars_of(self@.input.push(95u8)),
                    33,
                ));
            }
            t
        };
        let sl: String = lines[sc].clone();
        let mut out = tl;
        out.push('\n');
        out.push_str(zl.as_str());
        out.push('\n');
        out.push_str(yl.as_str());
        out.push('\n');
        out.push_str(xl.as_str());
        out.push('\n');
        out.push_str(sl.as_str());
        proof {
            reveal_strlit("\n");
            assert(out@ =~= display_spec(self@));
        }
        out
    }
}

} // verus!
verus! {

/// The base-layer button layout.
pub open spec fn base_layout() -> Seq<Seq<char>> {
    seq![
        "A"@, "B"@, "C"@, "D"@, "E"@, "F"@, "ENTER"@, "STO"@, "RCL"@, "DEL"@, "ADD"@, "7"@,
        "8"@, "9"@, "SUB"@, "4"@, "5"@, "6"@, "MUL"@, "1"@, "2"@, "3"@, "DIV"@, "DOT"@, "0"@,
        "ALT"@,
    ]
}

/// The alternate-layer button layout.
pub open spec fn alt_layout() -> Seq<Seq<char>> {
    seq![
        "ALT_A"@, "ALT_B"@, "ALT_C"@, "ALT_D"@, "ALT_E"@, "ALT_F"@, "DISP"@, "XY"@, "R_DOWN"@,
        "UNDO"@, "EDATA"@, "SIN"@, "COS"@, "TAN"@, "CHS"@, "LN"@, "LD"@, "LOG"@, "FAC"@,
        "ROOT"@, "SQRT"@, "TO_HMS"@, "RECIP"@, "INT"@, "I"@, "INV"@,
    ]
}

/// The inverse-layer button layout.
pub open spec fn inv_layout() -> Seq<Seq<char>> {
    seq![
        "INV_A"@, "INV_B"@, "INV_C"@, "INV_D"@, "INV_E"@, "INV_F"@, "MACRO"@, "XZ"@, "R_UP"@,
        "REDO"@, "RAND"@, "ASIN"@, "ACOS"@, "ATAN"@, "ABS"@, "EXP"@, "LB"@, "H"@, "DPERC"@,
        "POW"@, "SQR"@, "TO_H"@, "PERC"@, "FRAC"@, "ABS"@, "BASE"@,
    ]
}

/// The base-layer button commands, by button ordinal.
pub fn base_buttons() -> (r: Vec<&'static str>)
    ensures
        r.deep_view() == base_layout(),
        r@.len() == 26,
{
    proof {
    }
    let v: Vec<&'static str> = vec![
        "A", "B", "C", "D", "E", "F", "ENTER", "STO", "RCL", "DEL", "ADD", "7", "8", "9", "SUB",
        "4", "5", "6", "MUL", "1", "2", "3", "DIV", "DOT", "0", "ALT",
    ];
    proof {
        assert(v.deep_view() =~~= base_layout());
    }
    v
}

/// The alternate-layer button commands.
pub fn alt_buttons() -> (r: Vec<&'static str>)
    ensures
        r.deep_view() == alt_layout(),
        r@.len() == 26,
{
    let v: Vec<&'static str> = vec![
        "ALT_A", "ALT_B", "ALT_C", "ALT_D", "ALT_E", "ALT_F", "DISP", "XY", "R_DOWN", "UNDO",
        "EDATA", "SIN", "COS", "TAN", "CHS", "LN", "LD", "LOG", "FAC", "ROOT", "SQRT", "TO_HMS",
        "RECIP", "INT", "I", "INV",
    ];
    proof {
        assert(v.deep_view() =~~= alt_layout());
    }
    v
}

/// The inverse-layer button commands.
pub fn inv_buttons() -> (r: Vec<&'static str>)
    ensures
        r.deep_view() == inv_layout(),
        r@.len() == 26,
{
    let v: Vec<&'static str> = vec![
        "INV_A", "INV_B", "INV_C", "INV_D", "INV_E", "INV_F", "MACRO", "XZ", "R_UP", "REDO",
        "RAND", "ASIN", "ACOS", "ATAN", "ABS", "EXP", "LB", "H", "DPERC", "POW", "SQR", "TO_H",
        "PERC", "FRAC", "ABS", "BASE",
    ];
    proof {
        assert(v.deep_view() =~~= inv_layout());
    }
    v
}

/// The command a button ordinal produces under a shift layer.
pub open spec fn button_press_spec(st: State, index: u8) -> Seq<char> {
    let table = match st {
        State::Alt => alt_layout(),
        State::Inv => inv_layout(),
        _ => base_layout(),
    };
    if (index as int) < table.len() {
        table[index as int]
    } else {
        ""@
    }
}

impl Calc {
    /// The command of a button ordinal in a layer table; out of range is the
    /// empty command.
    pub fn button_from(buttons: &Vec<&'static str>, index: u8) -> (r: &'static str)
        ensures
            r@ == if (index as int) < buttons@.len() {
                buttons@[index as int]@
            } else {
                ""@
            },
    {
        if (index as usize) < buttons.len() {
            buttons[index as usize]
        } else {
            proof {
                reveal_strlit("");
            }
            ""
        }
    }

    /// The command a button press produces under the current layer, with the
    /// long-press suffix when held.
    pub fn translate_button_press(&self, index: u8, long: bool) -> (r: String)
        ensures
            r@ == button_press_spec(self.state, index) + (if long {
                "_long"@
            } else {
                Seq::<char>::empty()
            }),
    {
        let table = match self.state {
            State::Alt => alt_buttons(),
            State::Inv => inv_buttons(),
            _ => base_buttons(),
        };
        let cmd = Self::button_from(&table, index);
        let mut s = String::new();
        s.push_str(cmd);
        if long {
            s.push_str("_long");
        }
        s
    }
}

} // verus!
