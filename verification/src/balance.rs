//! The braces of the generated text: the text has as many closing braces
//! as opening ones, and no closing brace comes before its opening one.
use crate::baseline_matcher::{
    action_for, action_text, arg_match_text, can_generate, close_text, closing_text, cond_text,
    generated_text, header_text, inserts_text, lemma_closed_from, lemma_level_index,
    lemma_leveled_keeps_ids, level_index, leveled, opcode_arm, open_text, prepared, replacement_constant,
    shape_binding, shape_pattern, suffix_from_char, MatcherView, OptView, ScopeStack, ScopeType,
};
use crate::braces::{
    balanced, braces_at, depth, lemma_closes_one, lemma_depth_concat, lemma_never_closes_early,
    lemma_opens_and_closes, lemma_opens_one, lemma_plain, lemma_stays_open_concat, never_closes_early, plain,
    stays_open,
};
use crate::cliftinstbuilder::{opcode_name, CtonInst, CtonInstView, CtonOpcode};
use crate::chain::free_text_plain;
use crate::lhspatternmatcher::{NodeType, NodeView};
use crate::text::{decimal_digits, lemma_digits_plain, lemma_signed_plain};
use vstd::prelude::*;

verus! {

/// The fixed pieces of the generated text that hold no brace.
pub proof fn lemma_pieces_plain()
    ensures
        plain("match pos.func.dfg["@),
        plain("]"@),
        plain("let args_"@),
        plain(" = args;\n"@),
        plain(" = arg;\n"@),
        plain("let "@),
        plain("rhs_"@),
        plain(" : i64 = imm.into();\n"@),
        plain("\nValueDef::Result(arg_ty, _)"@),
        plain("match opcode"@),
        plain("match cond"@),
        plain("match pos.func.dfg.value_def("@),
        plain("args_"@),
        plain(")"@),
        plain("if "@),
        plain(" == "@),
        plain("inst"@),
        plain("opcode"@),
        plain("arg_ty"@),
        plain(""@),
        plain("fn superopt_"@),
        plain("(pos: &mut FuncCursor, inst: Inst)"@),
        plain("pos.func.dfg.replace(inst).iconst(width, "@),
        plain("); "@),
        plain("let inst"@),
        plain(" = pos.ins()."@),
        plain("("@),
        plain("args[0], args[1]"@),
        plain(");\n"@),
        plain("pos.func.dfg.replace(inst)."@),
{
    reveal_strlit("match pos.func.dfg[");
    reveal_strlit("]");
    reveal_strlit("let args_");
    reveal_strlit(" = args;\n");
    reveal_strlit(" = arg;\n");
    reveal_strlit("let ");
    reveal_strlit("rhs_");
    reveal_strlit(" : i64 = imm.into();\n");
    reveal_strlit("\nValueDef::Result(arg_ty, _)");
    reveal_strlit("match opcode");
    reveal_strlit("match cond");
    reveal_strlit("match pos.func.dfg.value_def(");
    reveal_strlit("args_");
    reveal_strlit(")");
    reveal_strlit("if ");
    reveal_strlit(" == ");
    reveal_strlit("inst");
    reveal_strlit("opcode");
    reveal_strlit("arg_ty");
    reveal_strlit("");
    reveal_strlit("fn superopt_");
    reveal_strlit("(pos: &mut FuncCursor, inst: Inst)");
    reveal_strlit("pos.func.dfg.replace(inst).iconst(width, ");
    reveal_strlit("); ");
    reveal_strlit("let inst");
    reveal_strlit(" = pos.ins().");
    reveal_strlit("(");
    reveal_strlit("args[0], args[1]");
    reveal_strlit(");\n");
    reveal_strlit("pos.func.dfg.replace(inst).");
}

/// The name of an opcode holds no brace.
pub proof fn lemma_opcode_name_plain(opcode: CtonOpcode)
    ensures
        plain(opcode_name(opcode)),
{
    reveal_strlit("iadd");
    reveal_strlit("imul");
    reveal_strlit("imul_imm");
    reveal_strlit("isub");
    reveal_strlit("irsub_imm");
    reveal_strlit("band");
    reveal_strlit("band_imm");
    reveal_strlit("bor");
    reveal_strlit("bor_imm");
    reveal_strlit("bxor");
    reveal_strlit("bxor_imm");
    reveal_strlit("ishl");
    reveal_strlit("ishl_imm");
    reveal_strlit("sshr");
    reveal_strlit("sshr_imm");
    reveal_strlit("ushr");
    reveal_strlit("ushr_imm");
    reveal_strlit("popcnt");
    reveal_strlit("clz");
    reveal_strlit("ctz");
    reveal_strlit("iadd_imm");
    reveal_strlit("Var");
    reveal_strlit("icmp");
    reveal_strlit("icmp_imm");
    reveal_strlit("Infer");
    reveal_strlit("Result");
    reveal_strlit("");
}

/// The case pattern of an opcode holds no brace.
pub proof fn lemma_opcode_arm_plain(value: Seq<char>)
    requires
        opcode_arm(value) is Some,
    ensures
        plain(opcode_arm(value).unwrap()),
{
    reveal_strlit("Opcode::Iadd");
    reveal_strlit("Opcode::IaddImm");
    reveal_strlit("Opcode::Imul");
    reveal_strlit("Opcode::ImulImm");
    reveal_strlit("Opcode::Isub");
    reveal_strlit("Opcode::IsubImm");
    reveal_strlit("Opcode::Icmp");
    reveal_strlit("Opcode::IcmpImm");
    reveal_strlit("Opcode::Band");
    reveal_strlit("Opcode::BandImm");
    reveal_strlit("Opcode::Bor");
    reveal_strlit("Opcode::BorImm");
    reveal_strlit("Opcode::Bxor");
    reveal_strlit("Opcode::BxorImm");
    reveal_strlit("Opcode::Ishl");
    reveal_strlit("Opcode::IshlImm");
    reveal_strlit("Opcode::Sshr");
    reveal_strlit("Opcode::SshrImm");
    reveal_strlit("Opcode::Ushr");
    reveal_strlit("Opcode::UshrImm");
    reveal_strlit("Opcode::Popcnt");
    reveal_strlit("Opcode::Clz");
    reveal_strlit("Opcode::Ctz");
}

/// The target's name for a condition code holds no brace.
pub proof fn lemma_cond_text_plain(value: Seq<char>)
    ensures
        plain(cond_text(value)),
{
    reveal_strlit("IntCC::Equal");
    reveal_strlit("IntCC::NotEqual");
    reveal_strlit("IntCC::SignedLessThan");
    reveal_strlit("IntCC::UnsignedLessThan");
    reveal_strlit("IntCC::SignedLessThanOrEqual");
    reveal_strlit("IntCC::UnsignedLessThanOrEqual");
    reveal_strlit("");
}

/// The case pattern of a shape opens one brace and closes it again.
pub proof fn lemma_shape_pattern_block(value: Seq<char>)
    requires
        shape_pattern(value) is Some,
    ensures
        depth(shape_pattern(value).unwrap()) == 0,
        stays_open(shape_pattern(value).unwrap(), 0),
{
    reveal_strlit("InstructionData::Binary { opcode, args }");
    assert(braces_at("InstructionData::Binary { opcode, args }"@, 24, 39));
    lemma_opens_and_closes("InstructionData::Binary { opcode, args }"@, 24, 39, 0);
    reveal_strlit("InstructionData::IntCompare { opcode, cond, args }");
    assert(braces_at("InstructionData::IntCompare { opcode, cond, args }"@, 28, 49));
    lemma_opens_and_closes("InstructionData::IntCompare { opcode, cond, args }"@, 28, 49, 0);
    reveal_strlit("InstructionData::Unary { opcode, arg }");
    assert(braces_at("InstructionData::Unary { opcode, arg }"@, 23, 37));
    lemma_opens_and_closes("InstructionData::Unary { opcode, arg }"@, 23, 37, 0);
    reveal_strlit("InstructionData::BinaryImm { opcode, arg, imm }");
    assert(braces_at("InstructionData::BinaryImm { opcode, arg, imm }"@, 27, 46));
    lemma_opens_and_closes("InstructionData::BinaryImm { opcode, arg, imm }"@, 27, 46, 0);
    reveal_strlit("InstructionData::IntCompareImm { opcode, cond, arg, imm }");
    assert(braces_at("InstructionData::IntCompareImm { opcode, cond, arg, imm }"@, 31, 56));
    lemma_opens_and_closes("InstructionData::IntCompareImm { opcode, cond, arg, imm }"@, 31, 56, 0);
}

/// The text that opens a block opens one brace.
pub proof fn lemma_open_text(scope: ScopeType, base: int)
    requires
        base >= 0,
    ensures
        depth(open_text(scope)) == 1,
        stays_open(open_text(scope), base),
{
    reveal_strlit(" {\n");
    reveal_strlit(" => {\n");
    assert(braces_at(" {\n"@, 1, -1));
    assert(braces_at(" => {\n"@, 4, -1));
    lemma_opens_one(" {\n"@, 1, base);
    lemma_opens_one(" => {\n"@, 4, base);
}

/// The text that closes a block closes one brace, and none early where a
/// brace is open.
pub proof fn lemma_close_text(scope: ScopeType, base: int)
    requires
        base >= 1,
    ensures
        depth(close_text(scope)) == -1,
        stays_open(close_text(scope), base),
{
    reveal_strlit("\n}");
    reveal_strlit("\n},");
    reveal_strlit("\n_ => {},");
    assert(braces_at("\n}"@, -1, 1));
    assert(braces_at("\n},"@, -1, 1));
    assert(braces_at("\n_ => {},"@, 6, 7));
    lemma_closes_one("\n}"@, 1, base);
    lemma_closes_one("\n},"@, 1, base);
    lemma_opens_and_closes("\n_ => {},"@, 6, 7, base - 1);
    lemma_depth_concat("\n},"@, "\n_ => {},"@);
    lemma_stays_open_concat("\n},"@, "\n_ => {},"@, base);
}

/// The closing texts of the blocks from a position on close one brace for
/// each of these blocks, and none early where as many braces are open.
pub proof fn lemma_closing_text(scopes: Seq<ScopeStack>, from: nat, base: int)
    requires
        from <= scopes.len(),
        base >= scopes.len() - from,
    ensures
        depth(closing_text(scopes, from)) == from - scopes.len(),
        stays_open(closing_text(scopes, from), base),
    decreases scopes.len(),
{
    if from < scopes.len() {
        let head = close_text(scopes.last().scope_type);
        let rest = closing_text(scopes.drop_last(), from);
        lemma_close_text(scopes.last().scope_type, base);
        lemma_closing_text(scopes.drop_last(), from, base - 1);
        lemma_depth_concat(head, rest);
        lemma_stays_open_concat(head, rest, base);
    } else {
        lemma_plain(closing_text(scopes, from), base);
    }
}

/// A text that never closes a brace early after some open braces does
/// not after more.
pub proof fn lemma_stays_open_higher(s: Seq<char>, base: int, higher: int)
    requires
        stays_open(s, base),
        base <= higher,
    ensures
        stays_open(s, higher),
{
    assert forall|n: int| 0 <= n <= s.len() implies higher + depth(#[trigger] s.subrange(0, n)) >= 0 by {
        assert(base + depth(s.subrange(0, n)) >= 0);
    }
}

/// Whether every text of the list holds no brace.
pub open spec fn all_plain(texts: Seq<Seq<char>>) -> bool {
    forall|i: int| 0 <= i < texts.len() ==> plain(#[trigger] texts[i])
}

/// Whether the text under construction has one open brace for each open
/// block and has never closed a brace early, and the field under
/// comparison and the names that await their test hold no brace.
pub open spec fn tidy(v: OptView) -> bool {
    &&& depth(v.text) == v.scopes.len()
    &&& stays_open(v.text, 0)
    &&& plain(v.entity)
    &&& all_plain(v.consts)
}

/// Appending a text without braces keeps the text tidy.
pub proof fn lemma_tidy_say_plain(v: OptView, piece: Seq<char>)
    requires
        tidy(v),
        plain(piece),
    ensures
        tidy(v.say(piece)),
{
    lemma_plain(piece, depth(v.text));
    lemma_depth_concat(v.text, piece);
    lemma_stays_open_concat(v.text, piece, 0);
}

/// Appending a text that opens a brace and closes it again keeps the
/// text tidy.
pub proof fn lemma_tidy_say_block(v: OptView, piece: Seq<char>)
    requires
        tidy(v),
        depth(piece) == 0,
        stays_open(piece, 0),
    ensures
        tidy(v.say(piece)),
{
    lemma_stays_open_higher(piece, 0, depth(v.text));
    lemma_depth_concat(v.text, piece);
    lemma_stays_open_concat(v.text, piece, 0);
}

/// Closing blocks keeps the text tidy: one brace is closed for each
/// block.
pub proof fn lemma_tidy_closed(v: OptView, from: nat)
    requires
        tidy(v),
    ensures
        tidy(v.closed_from(from)),
{
    if from < v.scopes.len() {
        let closing = closing_text(v.scopes, from);
        lemma_closing_text(v.scopes, from, depth(v.text));
        lemma_depth_concat(v.text, closing);
        lemma_stays_open_concat(v.text, closing, 0);
    }
}

/// Entering a block keeps the text tidy: one brace is closed for each
/// block that is closed, and one is opened for the new block.
pub proof fn lemma_tidy_entered(v: OptView, scope: ScopeType, level: usize)
    requires
        tidy(v),
    ensures
        tidy(v.entered(scope, level)),
{
    lemma_level_index(v.scopes, level, 0);
    let kept = level_index(v.scopes, level);
    let closing = closing_text(v.scopes, kept);
    lemma_closing_text(v.scopes, kept, depth(v.text));
    lemma_depth_concat(v.text, closing);
    lemma_stays_open_concat(v.text, closing, 0);
    lemma_open_text(scope, depth(v.text + closing));
    lemma_depth_concat(v.text + closing, open_text(scope));
    lemma_stays_open_concat(v.text + closing, open_text(scope), 0);
}

/// The statements that insert instructions hold no brace.
pub proof fn lemma_inserts_plain(rhs: Seq<CtonInstView>, from: nat, upto: nat)
    ensures
        plain(inserts_text(rhs, from, upto)),
    decreases upto - from,
{
    if from < upto {
        lemma_pieces_plain();
        lemma_digits_plain(from);
        lemma_opcode_name_plain(rhs[from as int].opcode);
        lemma_inserts_plain(rhs, from + 1, upto);
    }
}

/// The text of a replacement holds no brace.
pub proof fn lemma_action_text_plain(rhs: Seq<CtonInstView>)
    ensures
        plain(action_text(rhs)),
{
    lemma_pieces_plain();
    if rhs.len() == 1 {
        lemma_signed_plain(replacement_constant(rhs[0]));
    } else {
        lemma_inserts_plain(rhs, 0, (rhs.len() - 2) as nat);
        lemma_opcode_name_plain(rhs[rhs.len() - 2].opcode);
    }
}

/// The part of a text without braces from a character on holds no brace.
pub proof fn lemma_suffix_plain(s: Seq<char>, c: char, from: nat)
    requires
        plain(s),
    ensures
        plain(suffix_from_char(s, c, from)),
    decreases s.len() - from,
{
    if from < s.len() {
        if s[from as int] == c {
            let tail = s.subrange(from as int, s.len() as int);
            assert forall|i: int| 0 <= i < tail.len() implies (#[trigger] tail[i]) != '{' && tail[i] != '}' by {
                assert(tail[i] == s[from + i]);
            }
        } else {
            lemma_suffix_plain(s, c, from + 1);
        }
    }
}

/// Whether the state of a generation is tidy: its text is, and the
/// pending match holds no brace.
pub open spec fn tidy_state(state: MatcherView) -> bool {
    tidy(state.opt) && plain(state.arg_str)
}

/// One node keeps the state of a generation tidy.
pub proof fn lemma_step_tidy(state: MatcherView, node: NodeView, table: Map<usize, Vec<CtonInst>>, count: u32)
    requires
        tidy_state(state),
        state.can_step(node, table),
        node.node_type == NodeType::MatchArgs || node.node_type == NodeType::MatchConst ==> plain(node.node_value),
    ensures
        tidy_state(state.step(node, table, count)),
{
    lemma_pieces_plain();
    assert forall|v: OptView, piece: Seq<char>| tidy(v) && plain(piece) implies tidy(#[trigger] v.say(piece)) by {
        lemma_tidy_say_plain(v, piece);
    }
    assert forall|v: OptView, scope: ScopeType, level: usize| tidy(v) implies tidy(
        #[trigger] v.entered(scope, level),
    ) by {
        lemma_tidy_entered(v, scope, level);
    }
    assert forall|v: OptView, level: usize| tidy(v) implies tidy(#[trigger] v.cleared(level)) by {
        lemma_tidy_closed(v, level_index(v.scopes, level));
    }
    let opt = state.opt;
    let level = node.level;
    let value = node.node_value;
    let cleared = opt.cleared(level);
    assert(tidy(cleared));
    let visited = state.visited(node, count);
    match node.node_type {
        NodeType::MatchRoot => {
            lemma_digits_plain(count as nat);
            assert(plain(header_text(count)));
            assert(tidy(opt.say(header_text(count))));
        },
        NodeType::MatchInstData => {
            let head = "match pos.func.dfg["@ + opt.entity + "]"@;
            assert(plain(head));
            assert(tidy(opt.say(head)));
        },
        NodeType::InstType => {
            if value != "Var"@ {
                let pattern = shape_pattern(value).unwrap();
                lemma_shape_pattern_block(value);
                lemma_tidy_say_block(cleared, pattern);
                let arm = cleared.say(pattern).entered(ScopeType::scope_case, level);
                assert(tidy(arm));
                let bound = (state.arg_counter + 1) as u32;
                lemma_digits_plain(bound as nat);
                let named = (state.const_counter + 1) as u32;
                lemma_digits_plain(named as nat);
                let begun = OptView { entity: "opcode"@, ..arm };
                assert(tidy(begun));
                let opened = begun.say("let args_"@).say(decimal_digits(bound as nat)).say(shape_binding(value));
                assert(tidy(begun.say("let args_"@)));
                assert(tidy(begun.say("let args_"@).say(decimal_digits(bound as nat))));
                assert(tidy(opened));
                let name = "rhs_"@ + decimal_digits(named as nat);
                assert(plain(name));
                assert(tidy(opened.say("let "@)));
                assert(tidy(opened.say("let "@).say(name)));
                let told = opened.say("let "@).say(name).say(" : i64 = imm.into();\n"@);
                assert(tidy(told));
                assert(all_plain(told.consts.push(name))) by {
                    assert forall|i: int| 0 <= i < told.consts.push(name).len() implies plain(
                        #[trigger] told.consts.push(name)[i],
                    ) by {
                        if i < told.consts.len() {
                            assert(told.consts.push(name)[i] == told.consts[i]);
                        }
                    }
                }
            }
        },
        NodeType::MatchValDef => {
            if value != "Param"@ && value == "Result"@ {
                assert(tidy(cleared.say(state.arg_str)));
                let outer = cleared.say(state.arg_str).entered(ScopeType::scope_match, (level - 1) as usize);
                assert(tidy(outer));
                assert(tidy(outer.say("\nValueDef::Result(arg_ty, _)"@)));
            }
        },
        NodeType::MatchOpcode => {
            assert(tidy(opt.say("match opcode"@)));
        },
        NodeType::Opcode => {
            if value != "Var"@ {
                lemma_opcode_arm_plain(value);
                assert(tidy(cleared.say(opcode_arm(value).unwrap())));
            }
        },
        NodeType::MatchCond => {
            assert(tidy(opt.say("match cond"@)));
        },
        NodeType::Cond => {
            lemma_cond_text_plain(value);
            assert(tidy(cleared.say(cond_text(value))));
        },
        NodeType::MatchArgs => {
            lemma_digits_plain(state.arg_counter as nat);
            lemma_suffix_plain(value, '[', 0);
            assert(plain(arg_match_text(value, state.arg_counter)));
        },
        NodeType::MatchConst => {
            let name = if cleared.consts.len() > 0 {
                cleared.consts.last()
            } else {
                ""@
            };
            let rest = if cleared.consts.len() > 0 {
                cleared.consts.drop_last()
            } else {
                cleared.consts
            };
            assert(plain(name)) by {
                if cleared.consts.len() > 0 {
                    assert(plain(cleared.consts[cleared.consts.len() - 1]));
                }
            }
            assert(all_plain(rest)) by {
                assert forall|i: int| 0 <= i < rest.len() implies plain(#[trigger] rest[i]) by {
                    assert(rest[i] == cleared.consts[i]);
                }
            }
            let held = OptView { consts: rest, ..cleared };
            assert(tidy(held));
            assert(tidy(held.say("if "@)));
            assert(tidy(held.say("if "@).say(name)));
            assert(tidy(held.say("if "@).say(name).say(" == "@)));
            assert(tidy(held.say("if "@).say(name).say(" == "@).say(value)));
        },
        _ => {},
    }
    assert(tidy_state(visited));
    match action_for(table, node.id) {
        Some(rhs) => {
            lemma_action_text_plain(rhs);
        },
        None => {},
    }
}

/// The nodes of a list keep the state of a generation tidy.
pub proof fn lemma_run_tidy(
    state: MatcherView,
    nodes: Seq<NodeView>,
    table: Map<usize, Vec<CtonInst>>,
    count: u32,
    from: nat,
)
    requires
        tidy_state(state),
        state.can_run_from(nodes, table, count, from),
        free_text_plain(nodes),
    ensures
        tidy_state(state.run_from(nodes, table, count, from)),
    decreases nodes.len() - from,
{
    if from < nodes.len() {
        let node = nodes[from as int];
        lemma_step_tidy(state, node, table, count);
        lemma_run_tidy(state.step(node, table, count), nodes, table, count, from + 1);
    }
}

/// The braces of the generated text are balanced: the text has as many
/// closing braces as opening ones, and no beginning of it has more
/// closing braces than opening ones. This holds of every list that can be
/// rendered and whose texts that are written out as they are hold no
/// brace.
pub proof fn lemma_generated_text_balanced(nodes: Seq<NodeView>, table: Map<usize, Vec<CtonInst>>, count: u32)
    requires
        can_generate(nodes, table, count),
        free_text_plain(nodes),
    ensures
        balanced(generated_text(nodes, table, count)),
        never_closes_early(generated_text(nodes, table, count)),
{
    let list = prepared(nodes);
    let ready = leveled(list);
    lemma_leveled_keeps_ids(list, 0, list.len());
    assert(free_text_plain(list)) by {
        assert forall|i: int|
            0 <= i < list.len() && ((#[trigger] list[i]).node_type == NodeType::MatchArgs || list[i].node_type
                == NodeType::MatchConst) implies plain(list[i].node_value) by {
            if list.len() != nodes.len() {
                if i > 0 {
                    assert(list[i] == nodes[i - 1]);
                }
            }
        }
    }
    assert(free_text_plain(ready)) by {
        assert forall|i: int|
            0 <= i < ready.len() && ((#[trigger] ready[i]).node_type == NodeType::MatchArgs || ready[i].node_type
                == NodeType::MatchConst) implies plain(ready[i].node_value) by {
            assert(ready[i].node_type == list[i].node_type && ready[i].node_value == list[i].node_value);
        }
    }
    let start = MatcherView::initial();
    assert(tidy_state(start)) by {
        lemma_pieces_plain();
        reveal_strlit("");
        lemma_plain(""@, 0);
    }
    lemma_run_tidy(start, ready, table, count, 0);
    let end = start.run_from(ready, table, count, 0);
    lemma_tidy_closed(end.opt, 0);
    lemma_closed_from(end.opt, 0);
    lemma_never_closes_early(generated_text(nodes, table, count));
}

} // verus!
