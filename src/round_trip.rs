//! A parsed commit, written back as a line, parses to itself.

use crate::numeric::{
    IntErrorKind, dec_digits, digit_value, hex64, hex_digits, lemma_dec_digits_parse,
    lemma_dec_digits_shape, lemma_hex_digits_parse, lemma_hex_digits_shape, lemma_pow16_widths,
    parse_digits, parse_u64, parse_unsigned, pow16,
};
use crate::spike::{
    ContextView, CursorView, MemAnnotation, ParseFailure, SpikeEvent, SpikeMemWrite, TokenClass,
    context_from, core_word, event_words, has_hex_prefix, has_open_paren, head_words, hex_value,
    init_context, mem_word, mem_words, parse_line, reg_words, render_line, token_step,
};
use crate::text::{all_words, is_space, lemma_words_join, word_scan, words};
use vstd::prelude::*;

verus! {

/// A word that the parser reads as a register name.
pub open spec fn is_reg_name(n: Seq<char>) -> bool {
    &&& n.len() > 0
    &&& forall|j: int| 0 <= j < n.len() ==> !is_space(#[trigger] n[j])
    &&& n != mem_word()
    &&& !has_hex_prefix(n)
}

/// Every register name of the commit is one that the parser reads as such.
pub open spec fn names_ok(regs: Seq<(Seq<char>, u64)>) -> bool {
    forall|k: int| 0 <= k < regs.len() ==> is_reg_name(#[trigger] regs[k].0)
}

pub open spec fn context_ok(c: ContextView) -> bool {
    &&& names_ok(c.event.reg)
    &&& c.cursor matches CursorView::RegName(n) ==> is_reg_name(n)
}

proof fn lemma_context_from_append(c: ContextView, a: Seq<Seq<char>>, b: Seq<Seq<char>>)
    ensures
        context_from(c, a + b) == context_from(context_from(c, a), b),
    decreases b.len(),
{
    if b.len() == 0 {
        assert(a + b =~= a);
    } else {
        assert((a + b).drop_last() =~= a + b.drop_last());
        lemma_context_from_append(c, a, b.drop_last());
    }
}

proof fn lemma_words_are_words_scan(s: Seq<char>)
    ensures
        all_words(word_scan(s).0),
        forall|j: int|
            0 <= j < word_scan(s).1.len() ==> !is_space(#[trigger] word_scan(s).1[j]),
    decreases s.len(),
{
    if s.len() > 0 {
        lemma_words_are_words_scan(s.drop_last());
    }
}

proof fn lemma_words_are_words(s: Seq<char>)
    ensures
        all_words(words(s)),
{
    lemma_words_are_words_scan(s);
}

proof fn lemma_context_ok(ts: Seq<Seq<char>>)
    requires
        all_words(ts),
    ensures
        context_ok(context_from(init_context(), ts)),
    decreases ts.len(),
{
    if ts.len() > 0 {
        let dl = ts.drop_last();
        assert(all_words(dl)) by {
            assert forall|k: int| 0 <= k < dl.len() implies {
                &&& (#[trigger] dl[k]).len() > 0
                &&& forall|j: int| 0 <= j < dl[k].len() ==> !is_space(#[trigger] dl[k][j])
            } by {
                assert(dl[k] == ts[k]);
            }
        }
        lemma_context_ok(dl);
        let c = context_from(init_context(), dl);
        let t = ts.last();
        assert(t == ts[ts.len() - 1]);
        reveal(token_step);
        let c2 = token_step(c, t);
        assert(names_ok(c2.event.reg)) by {
            if let CursorView::RegName(n) = c.cursor {
                if has_hex_prefix(t) {
                    if let Ok(v) = hex_value(t) {
                        assert(c2.event.reg == c.event.reg.push((n, v)));
                        assert forall|k: int| 0 <= k < c2.event.reg.len() implies is_reg_name(
                            #[trigger] c2.event.reg[k].0,
                        ) by {
                            if k < c.event.reg.len() {
                                assert(c2.event.reg[k] == c.event.reg[k]);
                            }
                        }
                    }
                }
            }
        }
    }
}

/// A line that parses gives register names that the parser reads as such.
proof fn lemma_parsed_names_ok(line: Seq<char>)
    requires
        parse_line(line) is Ok,
    ensures
        names_ok(parse_line(line)->Ok_0.reg),
{
    lemma_words_are_words(line);
    lemma_context_ok(words(line));
}

proof fn lemma_parse_dec(n: nat, max: nat)
    requires
        n <= max,
        max <= u64::MAX,
    ensures
        parse_u64(dec_digits(n), 10, max) == Ok::<u64, IntErrorKind>(n as u64),
{
    lemma_dec_digits_parse(n, max);
    lemma_dec_digits_shape(n);
    let d = dec_digits(n);
    assert('0' <= d[0] <= '9');
}

proof fn lemma_parse_hex(n: nat, width: nat, max: nat)
    requires
        n < pow16(width),
        n <= max,
        max <= u64::MAX,
        width >= 1,
    ensures
        parse_u64(hex_digits(n, width), 16, max) == Ok::<u64, IntErrorKind>(n as u64),
{
    lemma_hex_digits_parse(n, width, max);
    lemma_hex_digits_shape(n, width);
    let d = hex_digits(n, width);
    assert(digit_value(d[0], 16) is Some);
}

proof fn lemma_hex_value64(v: u64)
    ensures
        has_hex_prefix(hex64(v)),
        hex_value(hex64(v)) == Ok::<u64, IntErrorKind>(v),
{
    lemma_pow16_widths();
    lemma_parse_hex(v as nat, 16, u64::MAX as nat);
    assert(hex64(v).subrange(2, hex64(v).len() as int) =~= hex_digits(v as nat, 16));
}

proof fn lemma_hex_chars_not_space(n: nat, width: nat)
    ensures
        forall|j: int| 0 <= j < width ==> !is_space(#[trigger] hex_digits(n, width)[j]),
{
    lemma_hex_digits_shape(n, width);
    assert forall|j: int| 0 <= j < width implies !is_space(#[trigger] hex_digits(n, width)[j]) by {
        assert(digit_value(hex_digits(n, width)[j], 16) is Some);
    }
}

proof fn lemma_hex64_word(v: u64)
    ensures
        hex64(v).len() > 0,
        forall|j: int| 0 <= j < hex64(v).len() ==> !is_space(#[trigger] hex64(v)[j]),
{
    lemma_hex_chars_not_space(v as nat, 16);
    lemma_hex_digits_shape(v as nat, 16);
    assert forall|j: int| 0 <= j < hex64(v).len() implies !is_space(#[trigger] hex64(v)[j]) by {
        if j >= 2 {
            assert(hex64(v)[j] == hex_digits(v as nat, 16)[j - 2]);
        }
    }
}

proof fn lemma_reg_words_shape(rs: Seq<(Seq<char>, u64)>)
    requires
        names_ok(rs),
    ensures
        all_words(reg_words(rs)),
    decreases rs.len(),
{
    if rs.len() > 0 {
        let dl = rs.drop_last();
        assert(names_ok(dl)) by {
            assert forall|k: int| 0 <= k < dl.len() implies is_reg_name(#[trigger] dl[k].0) by {
                assert(dl[k] == rs[k]);
            }
        }
        lemma_reg_words_shape(dl);
        assert(rs.last() == rs[rs.len() - 1]);
        lemma_hex64_word(rs.last().1);
        let ws = reg_words(rs);
        let pre = reg_words(dl);
        assert forall|k: int| 0 <= k < ws.len() implies {
            &&& (#[trigger] ws[k]).len() > 0
            &&& forall|j: int| 0 <= j < ws[k].len() ==> !is_space(#[trigger] ws[k][j])
        } by {
            if k < pre.len() {
                assert(ws[k] == pre[k]);
            }
        }
    }
}

proof fn lemma_mem_words_shape(ms: Seq<SpikeMemWrite>)
    ensures
        all_words(mem_words(ms)),
    decreases ms.len(),
{
    if ms.len() > 0 {
        lemma_mem_words_shape(ms.drop_last());
        lemma_hex64_word(ms.last().address);
        lemma_hex64_word(ms.last().data);
        let ws = mem_words(ms);
        let pre = mem_words(ms.drop_last());
        assert forall|k: int| 0 <= k < ws.len() implies {
            &&& (#[trigger] ws[k]).len() > 0
            &&& forall|j: int| 0 <= j < ws[k].len() ==> !is_space(#[trigger] ws[k][j])
        } by {
            if k < pre.len() {
                assert(ws[k] == pre[k]);
            }
        }
    }
}

proof fn lemma_head_words_shape(e: SpikeEvent)
    ensures
        all_words(head_words(e)),
{
    let h = head_words(e);
    lemma_dec_digits_shape(e.core as nat);
    lemma_dec_digits_shape(e.privilege as nat);
    lemma_hex64_word(e.pc);
    lemma_hex_chars_not_space(e.instruction as nat, 8);
    lemma_hex_digits_shape(e.instruction as nat, 8);
    let cw = h[1];
    assert forall|j: int| 0 <= j < cw.len() implies !is_space(#[trigger] cw[j]) by {
        if j < dec_digits(e.core as nat).len() {
            assert(cw[j] == dec_digits(e.core as nat)[j]);
        }
    }
    let iw = h[4];
    assert forall|j: int| 0 <= j < iw.len() implies !is_space(#[trigger] iw[j]) by {
        if 3 <= j < 11 {
            assert(iw[j] == hex_digits(e.instruction as nat, 8)[j - 3]);
        }
    }
}

proof fn lemma_all_words_concat(a: Seq<Seq<char>>, b: Seq<Seq<char>>)
    requires
        all_words(a),
        all_words(b),
    ensures
        all_words(a + b),
{
    let c = a + b;
    assert forall|k: int| 0 <= k < c.len() implies {
        &&& (#[trigger] c[k]).len() > 0
        &&& forall|j: int| 0 <= j < c[k].len() ==> !is_space(#[trigger] c[k][j])
    } by {
        if k < a.len() {
            assert(c[k] == a[k]);
        } else {
            assert(c[k] == b[k - a.len()]);
        }
    }
}

proof fn lemma_context_pair(c: ContextView, a: Seq<char>, b: Seq<char>)
    ensures
        context_from(c, seq![a, b]) == token_step(token_step(c, a), b),
{
    assert(seq![a, b].drop_last() =~= seq![a]);
    assert(seq![a, b].last() == b);
    assert(seq![a].drop_last() =~= Seq::<Seq<char>>::empty());
    assert(seq![a].last() == a);
    assert(context_from(c, Seq::<Seq<char>>::empty()) == c);
    assert(context_from(c, seq![a]) == token_step(c, a));
}

proof fn lemma_context_triple(c: ContextView, a: Seq<char>, b: Seq<char>, d: Seq<char>)
    ensures
        context_from(c, seq![a, b, d]) == token_step(token_step(token_step(c, a), b), d),
{
    assert(seq![a, b, d].drop_last() =~= seq![a, b]);
    assert(seq![a, b, d].last() == d);
    lemma_context_pair(c, a, b);
}

/// The parser's state after the words up to the instruction.
pub open spec fn after_head(e: SpikeEvent) -> ContextView {
    ContextView {
        cursor: CursorView::RegBegin,
        event: SpikeEvent {
            core: e.core,
            privilege: e.privilege,
            pc: e.pc,
            instruction: e.instruction,
            reg: Seq::empty(),
            mem_writes: Seq::empty(),
        },
        mem: MemAnnotation::Idle,
    }
}

proof fn lemma_step_core_id(c: ContextView, n: u8)
    requires
        c.cursor == CursorView::Core,
    ensures
        token_step(c, dec_digits(n as nat).push(':')) == (ContextView {
            cursor: CursorView::Priv,
            event: SpikeEvent { core: n, ..c.event },
            ..c
        }),
{
    reveal(token_step);
    let w = dec_digits(n as nat).push(':');
    lemma_dec_digits_shape(n as nat);
    assert(w.last() == ':');
    assert(w != core_word()) by {
        assert(core_word().last() == 'e');
    }
    assert(w.drop_last() =~= dec_digits(n as nat));
    lemma_parse_dec(n as nat, 255);
}

proof fn lemma_step_priv(c: ContextView, n: u8)
    requires
        c.cursor == CursorView::Priv,
    ensures
        token_step(c, dec_digits(n as nat)) == (ContextView {
            cursor: CursorView::Pc,
            event: SpikeEvent { privilege: n, ..c.event },
            ..c
        }),
{
    reveal(token_step);
    lemma_parse_dec(n as nat, 255);
}

proof fn lemma_step_pc(c: ContextView, v: u64)
    requires
        c.cursor == CursorView::Pc,
    ensures
        token_step(c, hex64(v)) == (ContextView {
            cursor: CursorView::Insn,
            event: SpikeEvent { pc: v, ..c.event },
            ..c
        }),
{
    reveal(token_step);
    lemma_hex_value64(v);
}

proof fn lemma_step_insn(c: ContextView, v: u32)
    requires
        c.cursor == CursorView::Insn,
    ensures
        token_step(c, seq!['(', '0', 'x'] + hex_digits(v as nat, 8) + seq![')']) == (ContextView {
            cursor: CursorView::RegBegin,
            event: SpikeEvent { instruction: v, ..c.event },
            ..c
        }),
{
    reveal(token_step);
    let w = seq!['(', '0', 'x'] + hex_digits(v as nat, 8) + seq![')'];
    lemma_hex_digits_shape(v as nat, 8);
    assert(has_open_paren(w));
    assert(w.last() == ')');
    assert(w.subrange(3, w.len() - 1) =~= hex_digits(v as nat, 8));
    lemma_pow16_widths();
    lemma_parse_hex(v as nat, 8, u32::MAX as nat);
}

proof fn lemma_step_core_word(c: ContextView)
    requires
        c.cursor == CursorView::Core,
    ensures
        token_step(c, core_word()) == c,
{
    reveal(token_step);
}

proof fn lemma_head_context(e: SpikeEvent)
    ensures
        context_from(init_context(), head_words(e)) == after_head(e),
{
    let h = head_words(e);
    let c0 = init_context();
    let w1 = dec_digits(e.core as nat).push(':');
    let w2 = dec_digits(e.privilege as nat);
    let w3 = hex64(e.pc);
    let w4 = seq!['(', '0', 'x'] + hex_digits(e.instruction as nat, 8) + seq![')'];
    assert(h =~= seq![core_word(), w1] + seq![w2, w3, w4]);
    lemma_context_from_append(c0, seq![core_word(), w1], seq![w2, w3, w4]);
    lemma_context_pair(c0, core_word(), w1);
    lemma_step_core_word(c0);
    lemma_step_core_id(c0, e.core);
    let c2 = token_step(c0, w1);
    lemma_context_triple(c2, w2, w3, w4);
    lemma_step_priv(c2, e.privilege);
    let c3 = token_step(c2, w2);
    lemma_step_pc(c3, e.pc);
    let c4 = token_step(c3, w3);
    lemma_step_insn(c4, e.instruction);
    let c5 = token_step(c4, w4);
    assert(c5.event =~= after_head(e).event);
}

proof fn lemma_step_mem(c: ContextView, m: SpikeMemWrite)
    requires
        c.cursor == CursorView::RegBegin,
        c.mem == MemAnnotation::Idle,
    ensures
        token_step(token_step(token_step(c, mem_word()), hex64(m.address)), hex64(m.data)) == (
        ContextView { event: SpikeEvent { mem_writes: c.event.mem_writes.push(m), ..c.event }, ..c }),
{
    reveal(token_step);
    let c1 = token_step(c, mem_word());
    assert(c1 == ContextView { mem: MemAnnotation::Address, ..c });
    lemma_hex_value64(m.address);
    assert(hex64(m.address) != mem_word()) by {
        assert(hex64(m.address)[0] == '0');
    }
    let c2 = token_step(c1, hex64(m.address));
    assert(c2 == ContextView { mem: MemAnnotation::Data(m.address), ..c });
    lemma_hex_value64(m.data);
    assert(hex64(m.data) != mem_word()) by {
        assert(hex64(m.data)[0] == '0');
    }
}

proof fn lemma_step_reg(c: ContextView, n: Seq<char>, v: u64)
    requires
        c.cursor == CursorView::RegBegin,
        c.mem == MemAnnotation::Idle,
        is_reg_name(n),
    ensures
        token_step(token_step(c, n), hex64(v)) == (ContextView {
            event: SpikeEvent { reg: c.event.reg.push((n, v)), ..c.event },
            ..c
        }),
{
    reveal(token_step);
    lemma_hex_value64(v);
}

proof fn lemma_regs_context(c: ContextView, rs: Seq<(Seq<char>, u64)>)
    requires
        c.cursor == CursorView::RegBegin,
        c.mem == MemAnnotation::Idle,
        names_ok(rs),
    ensures
        context_from(c, reg_words(rs)) == (ContextView {
            event: SpikeEvent { reg: c.event.reg + rs, ..c.event },
            ..c
        }),
    decreases rs.len(),
{
    if rs.len() == 0 {
        assert(c.event.reg + rs =~= c.event.reg);
    } else {
        let dl = rs.drop_last();
        assert(names_ok(dl)) by {
            assert forall|k: int| 0 <= k < dl.len() implies is_reg_name(#[trigger] dl[k].0) by {
                assert(dl[k] == rs[k]);
            }
        }
        lemma_regs_context(c, dl);
        let (n, v) = rs.last();
        assert(rs.last() == rs[rs.len() - 1]);
        assert(is_reg_name(n));
        lemma_context_from_append(c, reg_words(dl), seq![n, hex64(v)]);
        let mid = context_from(c, reg_words(dl));
        lemma_context_pair(mid, n, hex64(v));
        lemma_step_reg(mid, n, v);
        assert(c.event.reg + dl + seq![(n, v)] =~= c.event.reg + rs);
        assert((c.event.reg + dl).push((n, v)) =~= c.event.reg + rs);
    }
}

proof fn lemma_mems_context(c: ContextView, ms: Seq<SpikeMemWrite>)
    requires
        c.cursor == CursorView::RegBegin,
        c.mem == MemAnnotation::Idle,
    ensures
        context_from(c, mem_words(ms)) == (ContextView {
            event: SpikeEvent { mem_writes: c.event.mem_writes + ms, ..c.event },
            ..c
        }),
    decreases ms.len(),
{
    if ms.len() == 0 {
        assert(c.event.mem_writes + ms =~= c.event.mem_writes);
    } else {
        let dl = ms.drop_last();
        lemma_mems_context(c, dl);
        let m = ms.last();
        lemma_context_from_append(c, mem_words(dl), seq![mem_word(), hex64(m.address), hex64(m.data)]);
        let mid = context_from(c, mem_words(dl));
        lemma_context_triple(mid, mem_word(), hex64(m.address), hex64(m.data));
        lemma_step_mem(mid, m);
        assert((c.event.mem_writes + dl).push(m) =~= c.event.mem_writes + ms);
    }
}

/// A commit whose register names the parser reads as such, written as a
/// line, parses back to itself.
pub proof fn lemma_render_parses_back(e: SpikeEvent)
    requires
        names_ok(e.reg),
    ensures
        parse_line(render_line(e)) == Ok::<SpikeEvent, (TokenClass, Seq<char>, ParseFailure)>(e),
{
    let h = head_words(e);
    let rw = reg_words(e.reg);
    let mw = mem_words(e.mem_writes);
    lemma_head_words_shape(e);
    lemma_reg_words_shape(e.reg);
    lemma_mem_words_shape(e.mem_writes);
    lemma_all_words_concat(h, rw);
    lemma_all_words_concat(h + rw, mw);
    lemma_words_join(event_words(e));
    lemma_context_from_append(init_context(), h + rw, mw);
    lemma_context_from_append(init_context(), h, rw);
    lemma_head_context(e);
    lemma_regs_context(after_head(e), e.reg);
    let c2 = context_from(after_head(e), rw);
    lemma_mems_context(c2, e.mem_writes);
    let c3 = context_from(c2, mw);
    assert(Seq::<(Seq<char>, u64)>::empty() + e.reg =~= e.reg);
    assert(Seq::<SpikeMemWrite>::empty() + e.mem_writes =~= e.mem_writes);
    assert(c3.event =~= e);
}

/// A commit line that parses, written back and parsed again, gives the same
/// commit.
pub proof fn lemma_parse_round_trip(line: Seq<char>)
    requires
        parse_line(line) is Ok,
    ensures
        parse_line(render_line(parse_line(line)->Ok_0)) == parse_line(line),
{
    lemma_parsed_names_ok(line);
    lemma_render_parses_back(parse_line(line)->Ok_0);
}

} // verus!
