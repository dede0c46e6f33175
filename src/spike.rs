//! The reference simulator's commit log: one commit per line, read by a
//! tolerant state machine over the line's words.

use crate::numeric::{dec_digits, hex64, hex_digits, parse_u64, parse_unsigned_in, IntErrorKind};
use crate::text::{
    chars_of, join_words, lemma_join_push, line_ranges, lines, push_char, push_dec, push_hex,
    push_hex64, push_str, ranges_pick, string_from, word_ranges, words,
};
use vstd::prelude::*;

verus! {

/// One register write of a commit: the register's name and the value written.
#[derive(Debug)]
pub struct SpikeRegister {
    pub name: String,
    pub value: u64,
}

impl View for SpikeRegister {
    type V = (Seq<char>, u64);

    open spec fn view(&self) -> (Seq<char>, u64) {
        (self.name@, self.value)
    }
}

impl SpikeRegister {
    pub fn new(n: &str, v: u64) -> (r: Self)
        ensures
            r@ == (n@, v),
    {
        SpikeRegister { name: n.to_owned(), value: v }
    }
}

/// One memory store of a commit: the address and the data stored.
#[derive(Debug, Clone, Copy, PartialEq, Eq, Structural)]
pub struct SpikeMemWrite {
    pub address: u64,
    pub data: u64,
}

/// One commit of the reference trace.
#[derive(Debug)]
pub struct SpikeLogSyntax {
    pub core: u8,
    pub privilege: u8,
    pub pc: u64,
    pub instruction: u32,
    /// Register writes, in the order of the line.
    pub reg: Vec<SpikeRegister>,
    /// Memory stores (`mem <address> <data>`), in the order of the line.
    pub mem_writes: Vec<SpikeMemWrite>,
}

/// What a commit holds, as plain values.
pub struct SpikeEvent {
    pub core: u8,
    pub privilege: u8,
    pub pc: u64,
    pub instruction: u32,
    pub reg: Seq<(Seq<char>, u64)>,
    pub mem_writes: Seq<SpikeMemWrite>,
}

impl View for SpikeLogSyntax {
    type V = SpikeEvent;

    open spec fn view(&self) -> SpikeEvent {
        SpikeEvent {
            core: self.core,
            privilege: self.privilege,
            pc: self.pc,
            instruction: self.instruction,
            reg: self.reg@.map_values(|r: SpikeRegister| r@),
            mem_writes: self.mem_writes@,
        }
    }
}

/// The commit that nothing has been read into yet.
pub open spec fn empty_event() -> SpikeEvent {
    SpikeEvent {
        core: 0,
        privilege: 0,
        pc: 0,
        instruction: 0,
        reg: Seq::empty(),
        mem_writes: Seq::empty(),
    }
}

impl Default for SpikeLogSyntax {
    fn default() -> (r: Self)
        ensures
            r@ == empty_event(),
    {
        let r = SpikeLogSyntax {
            core: 0,
            privilege: 0,
            pc: 0,
            instruction: 0,
            reg: Vec::new(),
            mem_writes: Vec::new(),
        };
        assert(r@.reg =~= Seq::empty());
        r
    }
}

/// The word of a commit line that a parse error is about.
#[derive(Debug, Clone, Copy, PartialEq, Eq, Structural)]
pub enum TokenClass {
    CoreId,
    Privilege,
    ProgramCounter,
    Instruction,
    RegisterValue,
}

/// Why a word does not belong where it stands.
#[derive(Debug, Clone, Copy, PartialEq, Eq, Structural)]
pub enum ParseFailure {
    /// The line ended before this word.
    Missing,
    /// The core id does not end with `:`.
    NoColonSuffix,
    /// The value does not start with `0x`.
    NoHexPrefix,
    /// The instruction does not start with `(0x`.
    NoOpenParen,
    /// The instruction does not end with `)`.
    NoCloseParen,
    /// The digits do not make an integer of the expected width.
    Int(IntErrorKind),
}

/// A commit line that breaks the grammar: what was expected, the word found
/// (empty where the line ended), and why it does not fit.
#[derive(Debug)]
pub struct SpikeParseError {
    pub expect: TokenClass,
    pub actual: String,
    pub failure: ParseFailure,
}

impl View for SpikeParseError {
    type V = (TokenClass, Seq<char>, ParseFailure);

    open spec fn view(&self) -> (TokenClass, Seq<char>, ParseFailure) {
        (self.expect, self.actual@, self.failure)
    }
}

/// Where a memory annotation (`mem <address> [<data>]`) stands.
#[derive(Debug, Clone, Copy, PartialEq, Eq, Structural)]
pub enum MemAnnotation {
    /// No annotation is open.
    Idle,
    /// `mem` was read; its address comes next.
    Address,
    /// The address was read; data after it makes the annotation a store.
    Data(u64),
}

/// The word the parser expects next.
#[derive(Debug)]
pub enum ParseCursor {
    Core,
    Priv,
    Pc,
    Insn,
    RegParseBegin,
    RegParseName(String),
    Error(SpikeParseError),
}

pub enum CursorView {
    Core,
    Priv,
    Pc,
    Insn,
    RegBegin,
    RegName(Seq<char>),
    Error((TokenClass, Seq<char>, ParseFailure)),
}

impl View for ParseCursor {
    type V = CursorView;

    open spec fn view(&self) -> CursorView {
        match self {
            ParseCursor::Core => CursorView::Core,
            ParseCursor::Priv => CursorView::Priv,
            ParseCursor::Pc => CursorView::Pc,
            ParseCursor::Insn => CursorView::Insn,
            ParseCursor::RegParseBegin => CursorView::RegBegin,
            ParseCursor::RegParseName(n) => CursorView::RegName(n@),
            ParseCursor::Error(e) => CursorView::Error(e@),
        }
    }
}

/// The parser's state within one line.
pub struct ParseContext {
    pub cursor: ParseCursor,
    pub state: SpikeLogSyntax,
    pub mem: MemAnnotation,
}

pub struct ContextView {
    pub cursor: CursorView,
    pub event: SpikeEvent,
    pub mem: MemAnnotation,
}

impl View for ParseContext {
    type V = ContextView;

    open spec fn view(&self) -> ContextView {
        ContextView { cursor: self.cursor@, event: self.state@, mem: self.mem }
    }
}

pub open spec fn init_context() -> ContextView {
    ContextView { cursor: CursorView::Core, event: empty_event(), mem: MemAnnotation::Idle }
}

pub open spec fn core_word() -> Seq<char> {
    seq!['c', 'o', 'r', 'e']
}

pub open spec fn mem_word() -> Seq<char> {
    seq!['m', 'e', 'm']
}

pub open spec fn has_hex_prefix(t: Seq<char>) -> bool {
    t.len() >= 2 && t[0] == '0' && t[1] == 'x'
}

pub open spec fn has_open_paren(t: Seq<char>) -> bool {
    t.len() >= 3 && t[0] == '(' && t[1] == '0' && t[2] == 'x'
}

pub open spec fn ends_with(t: Seq<char>, c: char) -> bool {
    t.len() > 0 && t.last() == c
}

/// The hexadecimal value after the `0x` of `t`.
pub open spec fn hex_value(t: Seq<char>) -> Result<u64, IntErrorKind> {
    parse_u64(t.subrange(2, t.len() as int), 16, u64::MAX as nat)
}

pub open spec fn fail(
    ctx: ContextView,
    class: TokenClass,
    t: Seq<char>,
    f: ParseFailure,
) -> ContextView {
    ContextView { cursor: CursorView::Error((class, t, f)), ..ctx }
}

/// The parser's state after one more word `t`.
#[verifier::opaque]
pub open spec fn token_step(ctx: ContextView, t: Seq<char>) -> ContextView {
    match ctx.cursor {
        CursorView::Error(_) => ctx,
        CursorView::Core => if t == core_word() {
            ctx
        } else if !ends_with(t, ':') {
            fail(ctx, TokenClass::CoreId, t, ParseFailure::NoColonSuffix)
        } else {
            match parse_u64(t.drop_last(), 10, 255) {
                Ok(v) => ContextView {
                    cursor: CursorView::Priv,
                    event: SpikeEvent { core: v as u8, ..ctx.event },
                    ..ctx
                },
                Err(e) => fail(ctx, TokenClass::CoreId, t, ParseFailure::Int(e)),
            }
        },
        CursorView::Priv => match parse_u64(t, 10, 255) {
            Ok(v) => ContextView {
                cursor: CursorView::Pc,
                event: SpikeEvent { privilege: v as u8, ..ctx.event },
                ..ctx
            },
            Err(e) => fail(ctx, TokenClass::Privilege, t, ParseFailure::Int(e)),
        },
        CursorView::Pc => if !has_hex_prefix(t) {
            fail(ctx, TokenClass::ProgramCounter, t, ParseFailure::NoHexPrefix)
        } else {
            match hex_value(t) {
                Ok(v) => ContextView {
                    cursor: CursorView::Insn,
                    event: SpikeEvent { pc: v, ..ctx.event },
                    ..ctx
                },
                Err(e) => fail(ctx, TokenClass::ProgramCounter, t, ParseFailure::Int(e)),
            }
        },
        CursorView::Insn => if !has_open_paren(t) {
            fail(ctx, TokenClass::Instruction, t, ParseFailure::NoOpenParen)
        } else if !ends_with(t, ')') {
            fail(ctx, TokenClass::Instruction, t, ParseFailure::NoCloseParen)
        } else {
            match parse_u64(t.subrange(3, t.len() - 1), 16, u32::MAX as nat) {
                Ok(v) => ContextView {
                    cursor: CursorView::RegBegin,
                    event: SpikeEvent { instruction: v as u32, ..ctx.event },
                    ..ctx
                },
                Err(e) => fail(ctx, TokenClass::Instruction, t, ParseFailure::Int(e)),
            }
        },
        CursorView::RegBegin => if t == mem_word() {
            ContextView { mem: MemAnnotation::Address, ..ctx }
        } else if has_hex_prefix(t) {
            match ctx.mem {
                MemAnnotation::Idle => ctx,
                MemAnnotation::Address => match hex_value(t) {
                    Ok(a) => ContextView { mem: MemAnnotation::Data(a), ..ctx },
                    Err(_) => ContextView { mem: MemAnnotation::Idle, ..ctx },
                },
                MemAnnotation::Data(a) => match hex_value(t) {
                    Ok(d) => ContextView {
                        mem: MemAnnotation::Idle,
                        event: SpikeEvent {
                            mem_writes: ctx.event.mem_writes.push(
                                SpikeMemWrite { address: a, data: d },
                            ),
                            ..ctx.event
                        },
                        ..ctx
                    },
                    Err(_) => ContextView { mem: MemAnnotation::Idle, ..ctx },
                },
            }
        } else {
            ContextView { cursor: CursorView::RegName(t), mem: MemAnnotation::Idle, ..ctx }
        },
        CursorView::RegName(name) => if !has_hex_prefix(t) {
            fail(ctx, TokenClass::RegisterValue, t, ParseFailure::NoHexPrefix)
        } else {
            match hex_value(t) {
                Ok(v) => ContextView {
                    cursor: CursorView::RegBegin,
                    event: SpikeEvent { reg: ctx.event.reg.push((name, v)), ..ctx.event },
                    ..ctx
                },
                Err(e) => fail(ctx, TokenClass::RegisterValue, t, ParseFailure::Int(e)),
            }
        },
    }
}

/// The parser's state after the words `ts`, from state `ctx`.
pub open spec fn context_from(ctx: ContextView, ts: Seq<Seq<char>>) -> ContextView
    decreases ts.len(),
{
    if ts.len() == 0 {
        ctx
    } else {
        token_step(context_from(ctx, ts.drop_last()), ts.last())
    }
}

/// The parser's state after the words `ts` of a line.
pub open spec fn context_after(ts: Seq<Seq<char>>) -> ContextView {
    context_from(init_context(), ts)
}

pub open spec fn missing(class: TokenClass) -> (TokenClass, Seq<char>, ParseFailure) {
    (class, Seq::empty(), ParseFailure::Missing)
}

/// The commit that a state at the end of the line gives, or its error.
pub open spec fn finish(ctx: ContextView) -> Result<SpikeEvent, (TokenClass, Seq<char>, ParseFailure)> {
    match ctx.cursor {
        CursorView::Error(e) => Err(e),
        CursorView::RegBegin => Ok(ctx.event),
        CursorView::RegName(_) => Err(missing(TokenClass::RegisterValue)),
        CursorView::Core => Err(missing(TokenClass::CoreId)),
        CursorView::Priv => Err(missing(TokenClass::Privilege)),
        CursorView::Pc => Err(missing(TokenClass::ProgramCounter)),
        CursorView::Insn => Err(missing(TokenClass::Instruction)),
    }
}

/// What a commit line parses to.
pub open spec fn parse_line(line: Seq<char>) -> Result<SpikeEvent, (TokenClass, Seq<char>, ParseFailure)> {
    finish(context_after(words(line)))
}

pub open spec fn parse_result_view(r: Result<SpikeLogSyntax, SpikeParseError>) -> Result<
    SpikeEvent,
    (TokenClass, Seq<char>, ParseFailure),
> {
    match r {
        Ok(e) => Ok(e@),
        Err(e) => Err(e@),
    }
}

fn is_word(s: &Vec<char>, lo: usize, hi: usize, w: &[char]) -> (r: bool)
    requires
        lo <= hi <= s@.len(),
    ensures
        r == (s@.subrange(lo as int, hi as int) == w@),
{
    if hi - lo != w.len() {
        return false;
    }
    let mut i: usize = 0;
    while i < w.len()
        invariant
            hi - lo == w@.len(),
            lo <= hi <= s@.len(),
            i <= w@.len(),
            forall|j: int| 0 <= j < i ==> s@[lo + j] == w@[j],
        decreases w@.len() - i,
    {
        if s[lo + i] != w[i] {
            assert(s@.subrange(lo as int, hi as int)[i as int] != w@[i as int]);
            return false;
        }
        i = i + 1;
    }
    assert(s@.subrange(lo as int, hi as int) =~= w@);
    true
}

fn starts_with_hex(s: &Vec<char>, lo: usize, hi: usize) -> (r: bool)
    requires
        lo <= hi <= s@.len(),
    ensures
        r == has_hex_prefix(s@.subrange(lo as int, hi as int)),
{
    hi - lo >= 2 && s[lo] == '0' && s[lo + 1] == 'x'
}

fn ends_with_char(s: &Vec<char>, lo: usize, hi: usize, c: char) -> (r: bool)
    requires
        lo <= hi <= s@.len(),
    ensures
        r == ends_with(s@.subrange(lo as int, hi as int), c),
{
    hi > lo && s[hi - 1] == c
}

impl Default for ParseContext {
    fn default() -> (r: Self)
        ensures
            r@ == init_context(),
    {
        ParseContext {
            cursor: ParseCursor::Core,
            state: SpikeLogSyntax::default(),
            mem: MemAnnotation::Idle,
        }
    }
}

impl ParseContext {
    pub fn new() -> (r: Self)
        ensures
            r@ == init_context(),
    {
        ParseContext::default()
    }

    fn failed(
        state: SpikeLogSyntax,
        mem: MemAnnotation,
        class: TokenClass,
        s: &Vec<char>,
        lo: usize,
        hi: usize,
        f: ParseFailure,
    ) -> (r: Self)
        requires
            lo <= hi <= s@.len(),
        ensures
            r@.cursor == CursorView::Error((class, s@.subrange(lo as int, hi as int), f)),
            r@.event == state@,
            r@.mem == mem,
    {
        let actual = string_from(s, lo, hi);
        ParseContext {
            cursor: ParseCursor::Error(SpikeParseError { expect: class, actual, failure: f }),
            state,
            mem,
        }
    }

    /// Reads the word `s[lo..hi]`.
    pub fn step(self, s: &Vec<char>, lo: usize, hi: usize) -> (r: Self)
        requires
            lo <= hi <= s@.len(),
        ensures
            r@ == token_step(self@, s@.subrange(lo as int, hi as int)),
    {
        reveal(token_step);
        let ghost t = s@.subrange(lo as int, hi as int);
        let ghost ctx = self@;
        let ParseContext { cursor, mut state, mut mem } = self;
        match cursor {
            ParseCursor::Error(e) => ParseContext { cursor: ParseCursor::Error(e), state, mem },
            ParseCursor::Core => {
                if is_word(s, lo, hi, &['c', 'o', 'r', 'e']) {
                    assert(t == core_word());
                    return ParseContext { cursor: ParseCursor::Core, state, mem };
                }
                assert(t != core_word());
                if !ends_with_char(s, lo, hi, ':') {
                    return Self::failed(
                        state,
                        mem,
                        TokenClass::CoreId,
                        s,
                        lo,
                        hi,
                        ParseFailure::NoColonSuffix,
                    );
                }
                assert(t.drop_last() =~= s@.subrange(lo as int, hi - 1));
                match parse_unsigned_in(s, lo, hi - 1, 10, 255) {
                    Ok(v) => {
                        state.core = v as u8;
                        ParseContext { cursor: ParseCursor::Priv, state, mem }
                    },
                    Err(e) => Self::failed(
                        state,
                        mem,
                        TokenClass::CoreId,
                        s,
                        lo,
                        hi,
                        ParseFailure::Int(e),
                    ),
                }
            },
            ParseCursor::Priv => match parse_unsigned_in(s, lo, hi, 10, 255) {
                Ok(v) => {
                    state.privilege = v as u8;
                    ParseContext { cursor: ParseCursor::Pc, state, mem }
                },
                Err(e) => Self::failed(
                    state,
                    mem,
                    TokenClass::Privilege,
                    s,
                    lo,
                    hi,
                    ParseFailure::Int(e),
                ),
            },
            ParseCursor::Pc => {
                if !starts_with_hex(s, lo, hi) {
                    return Self::failed(
                        state,
                        mem,
                        TokenClass::ProgramCounter,
                        s,
                        lo,
                        hi,
                        ParseFailure::NoHexPrefix,
                    );
                }
                assert(t.subrange(2, t.len() as int) =~= s@.subrange(lo + 2, hi as int));
                match parse_unsigned_in(s, lo + 2, hi, 16, u64::MAX) {
                    Ok(v) => {
                        state.pc = v;
                        ParseContext { cursor: ParseCursor::Insn, state, mem }
                    },
                    Err(e) => Self::failed(
                        state,
                        mem,
                        TokenClass::ProgramCounter,
                        s,
                        lo,
                        hi,
                        ParseFailure::Int(e),
                    ),
                }
            },
            ParseCursor::Insn => {
                if !(hi - lo >= 3 && s[lo] == '(' && s[lo + 1] == '0' && s[lo + 2] == 'x') {
                    return Self::failed(
                        state,
                        mem,
                        TokenClass::Instruction,
                        s,
                        lo,
                        hi,
                        ParseFailure::NoOpenParen,
                    );
                }
                if !ends_with_char(s, lo, hi, ')') {
                    return Self::failed(
                        state,
                        mem,
                        TokenClass::Instruction,
                        s,
                        lo,
                        hi,
                        ParseFailure::NoCloseParen,
                    );
                }
                assert(t.subrange(3, t.len() - 1) =~= s@.subrange(lo + 3, hi - 1));
                match parse_unsigned_in(s, lo + 3, hi - 1, 16, u32::MAX as u64) {
                    Ok(v) => {
                        state.instruction = v as u32;
                        ParseContext { cursor: ParseCursor::RegParseBegin, state, mem }
                    },
                    Err(e) => Self::failed(
                        state,
                        mem,
                        TokenClass::Instruction,
                        s,
                        lo,
                        hi,
                        ParseFailure::Int(e),
                    ),
                }
            },
            ParseCursor::RegParseBegin => {
                if is_word(s, lo, hi, &['m', 'e', 'm']) {
                    assert(t == mem_word());
                    return ParseContext {
                        cursor: ParseCursor::RegParseBegin,
                        state,
                        mem: MemAnnotation::Address,
                    };
                }
                assert(t != mem_word());
                if starts_with_hex(s, lo, hi) {
                    assert(t.subrange(2, t.len() as int) =~= s@.subrange(lo + 2, hi as int));
                    let next = match mem {
                        MemAnnotation::Idle => MemAnnotation::Idle,
                        MemAnnotation::Address => match parse_unsigned_in(
                            s,
                            lo + 2,
                            hi,
                            16,
                            u64::MAX,
                        ) {
                            Ok(a) => MemAnnotation::Data(a),
                            Err(_) => MemAnnotation::Idle,
                        },
                        MemAnnotation::Data(a) => {
                            match parse_unsigned_in(s, lo + 2, hi, 16, u64::MAX) {
                                Ok(d) => {
                                    state.mem_writes.push(SpikeMemWrite { address: a, data: d });
                                },
                                Err(_) => {},
                            }
                            MemAnnotation::Idle
                        },
                    };
                    proof {
                        let r = ContextView {
                            cursor: CursorView::RegBegin,
                            event: state@,
                            mem: next,
                        };
                        assert(state@.reg == ctx.event.reg);
                        assert(r == token_step(ctx, t));
                    }
                    ParseContext { cursor: ParseCursor::RegParseBegin, state, mem: next }
                } else {
                    let name = string_from(s, lo, hi);
                    ParseContext {
                        cursor: ParseCursor::RegParseName(name),
                        state,
                        mem: MemAnnotation::Idle,
                    }
                }
            },
            ParseCursor::RegParseName(name) => {
                if !starts_with_hex(s, lo, hi) {
                    return Self::failed(
                        state,
                        mem,
                        TokenClass::RegisterValue,
                        s,
                        lo,
                        hi,
                        ParseFailure::NoHexPrefix,
                    );
                }
                assert(t.subrange(2, t.len() as int) =~= s@.subrange(lo + 2, hi as int));
                match parse_unsigned_in(s, lo + 2, hi, 16, u64::MAX) {
                    Ok(v) => {
                        let ghost old_reg = state.reg@;
                        let ghost name_view = name@;
                        state.reg.push(SpikeRegister { name, value: v });
                        assert(state.reg@.map_values(|r: SpikeRegister| r@) =~= old_reg.map_values(
                            |r: SpikeRegister| r@,
                        ).push((name_view, v)));
                        ParseContext { cursor: ParseCursor::RegParseBegin, state, mem }
                    },
                    Err(e) => Self::failed(
                        state,
                        mem,
                        TokenClass::RegisterValue,
                        s,
                        lo,
                        hi,
                        ParseFailure::Int(e),
                    ),
                }
            },
        }
    }

    /// The commit read so far, or the error that stopped the line.
    pub fn to_spike_log(self) -> (r: Result<SpikeLogSyntax, SpikeParseError>)
        ensures
            parse_result_view(r) == finish(self@),
    {
        let empty = String::new();
        match self.cursor {
            ParseCursor::Error(err) => Err(err),
            ParseCursor::RegParseBegin => Ok(self.state),
            ParseCursor::RegParseName(_) => Err(
                SpikeParseError {
                    expect: TokenClass::RegisterValue,
                    actual: empty,
                    failure: ParseFailure::Missing,
                },
            ),
            ParseCursor::Core => Err(
                SpikeParseError {
                    expect: TokenClass::CoreId,
                    actual: empty,
                    failure: ParseFailure::Missing,
                },
            ),
            ParseCursor::Priv => Err(
                SpikeParseError {
                    expect: TokenClass::Privilege,
                    actual: empty,
                    failure: ParseFailure::Missing,
                },
            ),
            ParseCursor::Pc => Err(
                SpikeParseError {
                    expect: TokenClass::ProgramCounter,
                    actual: empty,
                    failure: ParseFailure::Missing,
                },
            ),
            ParseCursor::Insn => Err(
                SpikeParseError {
                    expect: TokenClass::Instruction,
                    actual: empty,
                    failure: ParseFailure::Missing,
                },
            ),
        }
    }
}

/// Parses the commit line `s[lo..hi]`.
fn parse_range(s: &Vec<char>, lo: usize, hi: usize) -> (r: Result<SpikeLogSyntax, SpikeParseError>)
    requires
        lo <= hi <= s@.len(),
    ensures
        parse_result_view(r) == parse_line(s@.subrange(lo as int, hi as int)),
{
    let ghost ws = words(s@.subrange(lo as int, hi as int));
    let ranges = word_ranges(s, lo, hi);
    let mut ctx = ParseContext::new();
    let mut k: usize = 0;
    while k < ranges.len()
        invariant
            k <= ranges@.len(),
            ranges_pick(s@, ranges@, ws),
            ctx@ == context_after(ws.subrange(0, k as int)),
        decreases ranges@.len() - k,
    {
        let (a, b) = ranges[k];
        assert(ws.subrange(0, k + 1).drop_last() =~= ws.subrange(0, k as int));
        assert(ws.subrange(0, k + 1).last() == ws[k as int]);
        ctx = ctx.step(s, a, b);
        k = k + 1;
    }
    assert(ws.subrange(0, k as int) =~= ws);
    ctx.to_spike_log()
}

impl SpikeLogSyntax {
    /// Parses one commit line of the reference trace.
    pub fn parse(line: &str) -> (r: Result<SpikeLogSyntax, SpikeParseError>)
        ensures
            parse_result_view(r) == parse_line(line@),
    {
        let s = chars_of(line);
        assert(s@.subrange(0, s@.len() as int) =~= s@);
        parse_range(&s, 0, s.len())
    }
}

/// A line of the reference trace that is not a commit.
#[derive(Debug)]
pub struct SpikeLogError {
    /// Counted from 0.
    pub line_number: usize,
    pub line: String,
    pub error: SpikeParseError,
}

/// The commits of the lines `ls`, or the first line that is not one: its
/// number, its text and the error.
pub open spec fn parse_lines(ls: Seq<Seq<char>>) -> Result<
    Seq<SpikeEvent>,
    (nat, Seq<char>, (TokenClass, Seq<char>, ParseFailure)),
>
    decreases ls.len(),
{
    if ls.len() == 0 {
        Ok(Seq::empty())
    } else {
        match parse_lines(ls.drop_last()) {
            Err(e) => Err(e),
            Ok(evs) => match parse_line(ls.last()) {
                Ok(ev) => Ok(evs.push(ev)),
                Err(err) => Err(((ls.len() - 1) as nat, ls.last(), err)),
            },
        }
    }
}

pub open spec fn events_view(v: Seq<SpikeLogSyntax>) -> Seq<SpikeEvent> {
    v.map_values(|e: SpikeLogSyntax| e@)
}

pub open spec fn log_result_view(r: Result<Vec<SpikeLogSyntax>, SpikeLogError>) -> Result<
    Seq<SpikeEvent>,
    (nat, Seq<char>, (TokenClass, Seq<char>, ParseFailure)),
> {
    match r {
        Ok(v) => Ok(events_view(v@)),
        Err(e) => Err((e.line_number as nat, e.line@, e.error@)),
    }
}

/// Parses a whole reference trace, one commit per line; the first line that
/// is not a commit stops it.
pub fn parse_spike_log(log: &str) -> (r: Result<Vec<SpikeLogSyntax>, SpikeLogError>)
    ensures
        log_result_view(r) == parse_lines(lines(log@)),
{
    let s = chars_of(log);
    let ghost ls = lines(s@);
    let ranges = line_ranges(&s);
    let mut out: Vec<SpikeLogSyntax> = Vec::new();
    let mut k: usize = 0;
    assert(ls.subrange(0, 0) =~= Seq::<Seq<char>>::empty());
    assert(events_view(out@) =~= Seq::<SpikeEvent>::empty());
    while k < ranges.len()
        invariant
            k <= ranges@.len(),
            ls == lines(log@),
            ranges_pick(s@, ranges@, ls),
            parse_lines(ls.subrange(0, k as int)) == Ok::<
                Seq<SpikeEvent>,
                (nat, Seq<char>, (TokenClass, Seq<char>, ParseFailure)),
            >(events_view(out@)),
        decreases ranges@.len() - k,
    {
        let (a, b) = ranges[k];
        proof {
            lemma_parse_lines_next(ls, k as nat);
        }
        match parse_range(&s, a, b) {
            Ok(ev) => {
                let ghost old_out = out@;
                out.push(ev);
                assert(events_view(out@) =~= events_view(old_out).push(ev@));
            },
            Err(error) => {
                let line = string_from(&s, a, b);
                assert(ranges@[k as int] == (a, b));
                proof {
                    lemma_parse_lines_err_extends(ls, (k + 1) as nat);
                }
                return Err(SpikeLogError { line_number: k, line, error });
            },
        }
        k = k + 1;
    }
    assert(ls.subrange(0, k as int) =~= ls);
    Ok(out)
}

proof fn lemma_parse_lines_next(ls: Seq<Seq<char>>, k: nat)
    requires
        k < ls.len(),
    ensures
        parse_lines(ls.subrange(0, k + 1 as int)) == match parse_lines(ls.subrange(0, k as int)) {
            Err(e) => Err(e),
            Ok(evs) => match parse_line(ls[k as int]) {
                Ok(ev) => Ok(evs.push(ev)),
                Err(err) => Err((k, ls[k as int], err)),
            },
        },
{
    assert(ls.subrange(0, k + 1 as int).drop_last() =~= ls.subrange(0, k as int));
}

/// Once a line fails, the lines after it change nothing.
proof fn lemma_parse_lines_err_extends(ls: Seq<Seq<char>>, n: nat)
    requires
        n <= ls.len(),
        parse_lines(ls.subrange(0, n as int)) is Err,
    ensures
        parse_lines(ls) == parse_lines(ls.subrange(0, n as int)),
    decreases ls.len() - n,
{
    if n < ls.len() {
        assert(ls.subrange(0, n + 1 as int).drop_last() =~= ls.subrange(0, n as int));
        lemma_parse_lines_err_extends(ls, n + 1);
    } else {
        assert(ls.subrange(0, n as int) =~= ls);
    }
}

/// The words of a commit line up to the instruction.
pub open spec fn head_words(e: SpikeEvent) -> Seq<Seq<char>> {
    seq![
        core_word(),
        dec_digits(e.core as nat).push(':'),
        dec_digits(e.privilege as nat),
        hex64(e.pc),
        seq!['(', '0', 'x'] + hex_digits(e.instruction as nat, 8) + seq![')'],
    ]
}

/// Each register write as its name and value.
pub open spec fn reg_words(rs: Seq<(Seq<char>, u64)>) -> Seq<Seq<char>>
    decreases rs.len(),
{
    if rs.len() == 0 {
        Seq::empty()
    } else {
        reg_words(rs.drop_last()) + seq![rs.last().0, hex64(rs.last().1)]
    }
}

/// Each store as `mem`, its address and its data.
pub open spec fn mem_words(ms: Seq<SpikeMemWrite>) -> Seq<Seq<char>>
    decreases ms.len(),
{
    if ms.len() == 0 {
        Seq::empty()
    } else {
        mem_words(ms.drop_last()) + seq![mem_word(), hex64(ms.last().address), hex64(ms.last().data)]
    }
}

pub open spec fn event_words(e: SpikeEvent) -> Seq<Seq<char>> {
    head_words(e) + reg_words(e.reg) + mem_words(e.mem_writes)
}

/// A commit written as a line of the reference trace.
pub open spec fn render_line(e: SpikeEvent) -> Seq<char> {
    join_words(event_words(e))
}

fn push_word(s: &mut String, Ghost(ws): Ghost<Seq<Seq<char>>>, w: &String)
    requires
        ws.len() >= 1,
        old(s)@ == join_words(ws),
    ensures
        final(s)@ == join_words(ws.push(w@)),
{
    push_char(s, ' ');
    push_str(s, w.as_str());
    proof {
        lemma_join_push(ws, w@);
    }
}

impl SpikeLogSyntax {
    /// The commit written as a line of the reference trace.
    pub fn to_log_line(&self) -> (r: String)
        ensures
            r@ == render_line(self@),
    {
        let e = Ghost(self@);
        let mut s = String::new();
        push_str(&mut s, "core");
        proof {
            reveal_strlit("core");
            assert(s@ =~= join_words(seq![core_word()]));
        }
        let ghost mut ws: Seq<Seq<char>> = seq![core_word()];
        let mut w = String::new();
        push_dec(&mut w, self.core as u64);
        push_char(&mut w, ':');
        assert(w@ =~= dec_digits(self.core as nat).push(':'));
        push_word(&mut s, Ghost(ws), &w);
        proof { ws = ws.push(w@); }
        let mut w = String::new();
        push_dec(&mut w, self.privilege as u64);
        assert(w@ =~= dec_digits(self.privilege as nat));
        push_word(&mut s, Ghost(ws), &w);
        proof { ws = ws.push(w@); }
        let mut w = String::new();
        push_hex64(&mut w, self.pc);
        assert(w@ =~= hex64(self.pc));
        push_word(&mut s, Ghost(ws), &w);
        proof { ws = ws.push(w@); }
        let mut w = String::new();
        push_char(&mut w, '(');
        push_char(&mut w, '0');
        push_char(&mut w, 'x');
        push_hex(&mut w, self.instruction as u64, 8);
        push_char(&mut w, ')');
        assert(w@ =~= seq!['(', '0', 'x'] + hex_digits(self.instruction as nat, 8) + seq![')']);
        push_word(&mut s, Ghost(ws), &w);
        proof { ws = ws.push(w@); }
        assert(ws =~= head_words(e@));
        let mut k: usize = 0;
        while k < self.reg.len()
            invariant
                k <= self.reg@.len(),
                e@ == self@,
                s@ == join_words(ws),
                ws == head_words(e@) + reg_words(e@.reg.subrange(0, k as int)),
            decreases self.reg@.len() - k,
        {
            let r = &self.reg[k];
                        push_word(&mut s, Ghost(ws), &r.name);
        proof { ws = ws.push(r.name@); }
            let mut w = String::new();
            push_hex64(&mut w, r.value);
            assert(w@ =~= hex64(r.value));
            push_word(&mut s, Ghost(ws), &w);
        proof { ws = ws.push(w@); }
            proof {
                let rs = e@.reg.subrange(0, k + 1);
                assert(rs.drop_last() =~= e@.reg.subrange(0, k as int));
                assert(rs.last() == r@);
                assert(ws =~= head_words(e@) + reg_words(rs));
            }
            k = k + 1;
        }
        assert(e@.reg.subrange(0, k as int) =~= e@.reg);
        let mut k: usize = 0;
        assert(e@.mem_writes.subrange(0, 0) =~= Seq::<SpikeMemWrite>::empty());
        assert(ws =~= head_words(e@) + reg_words(e@.reg) + mem_words(
            e@.mem_writes.subrange(0, 0),
        ));
        while k < self.mem_writes.len()
            invariant
                k <= self.mem_writes@.len(),
                e@ == self@,
                s@ == join_words(ws),
                ws == head_words(e@) + reg_words(e@.reg) + mem_words(
                    e@.mem_writes.subrange(0, k as int),
                ),
            decreases self.mem_writes@.len() - k,
        {
            let m = self.mem_writes[k];
            let mut w = String::new();
            push_str(&mut w, "mem");
            proof {
                reveal_strlit("mem");
                assert(w@ =~= mem_word());
            }
            push_word(&mut s, Ghost(ws), &w);
        proof { ws = ws.push(w@); }
            let mut w = String::new();
            push_hex64(&mut w, m.address);
            assert(w@ =~= hex64(m.address));
            push_word(&mut s, Ghost(ws), &w);
        proof { ws = ws.push(w@); }
            let mut w = String::new();
            push_hex64(&mut w, m.data);
            assert(w@ =~= hex64(m.data));
            push_word(&mut s, Ghost(ws), &w);
        proof { ws = ws.push(w@); }
            proof {
                let ms = e@.mem_writes.subrange(0, k + 1);
                assert(ms.drop_last() =~= e@.mem_writes.subrange(0, k as int));
                assert(ms.last() == m);
                assert(ws =~= head_words(e@) + reg_words(e@.reg) + mem_words(ms));
            }
            k = k + 1;
        }
        assert(e@.mem_writes.subrange(0, k as int) =~= e@.mem_writes);
        s
    }
}

} // verus!
