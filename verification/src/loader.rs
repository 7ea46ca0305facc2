//! The catalog of materials, read from its text form.
//!
//! The text is line oriented. Blank lines and lines that start with `#` are
//! skipped. A line `[<id>]` starts the block of a material; the lines
//! `key: value` that follow fill it in. A block that lacks a key is dropped,
//! as is one whose id was used by an earlier block or is below ten. The
//! material `0`, "Empty", is always part of the catalog.

use crate::particle_data::{keys_are_ids, MaterialView, ParticleData};
use crate::text::{
    chars_of, decimal_digit, decimal_number, digit_of, find_char, index_of_char, is_decimal_text,
    lines_of, parse_unsigned, read_digits, read_unsigned, slice_of, split_lines, string_of,
    trim_chars, trimmed,
};
use std::collections::HashMap;
use vstd::prelude::*;

verus! {

/// The least id that a material of the text can have: those below are kept
/// for materials that the engine itself defines.
pub const FIRST_USER_ID: u16 = 10;

/// Number of digits after the point that a density keeps.
pub const DENSITY_DIGITS: usize = 6;

/// A block of the text while it is read: what has been found of a material
/// so far.
#[derive(Debug, Clone)]
pub struct ParticleParseData {
    pub id: Option<u16>,
    pub name: Option<String>,
    pub category: Option<u16>,
    pub base_color: Option<String>,
    pub variant_color: Option<String>,
    pub is_movable: Option<bool>,
    pub density: Option<u64>,
}

/// A block with its texts as sequences of characters.
pub struct BlockView {
    pub id: Option<u16>,
    pub name: Option<Seq<char>>,
    pub category: Option<u16>,
    pub base_color: Option<Seq<char>>,
    pub variant_color: Option<Seq<char>>,
    pub is_movable: Option<bool>,
    pub density: Option<u64>,
}

/// The characters of a text, if there is one.
pub open spec fn text_view(s: Option<String>) -> Option<Seq<char>> {
    match s {
        Some(t) => Some(t@),
        None => None,
    }
}

impl View for ParticleParseData {
    type V = BlockView;

    open spec fn view(&self) -> BlockView {
        BlockView {
            id: self.id,
            name: text_view(self.name),
            category: self.category,
            base_color: text_view(self.base_color),
            variant_color: text_view(self.variant_color),
            is_movable: self.is_movable,
            density: self.density,
        }
    }
}

/// The first six digits after the point, with zeros where there are fewer.
pub open spec fn micro_digits(frac: Seq<char>) -> Seq<char>
    decreases 6 - frac.len(),
{
    if frac.len() >= 6 {
        frac.take(6)
    } else {
        micro_digits(frac.push('0'))
    }
}

/// Reading of a density: an optional `+`, then decimal digits with at most
/// one point among them and at least one digit. The value is in millionths;
/// digits beyond the sixth after the point are dropped. A text of another
/// form, or a value beyond 64 bits, is no density.
pub open spec fn parse_density(s: Seq<char>) -> Option<u64> {
    let t = if s.len() > 0 && s[0] == '+' {
        s.skip(1)
    } else {
        s
    };
    let dot = index_of_char(t, '.');
    let whole = t.take(dot);
    let frac = if dot < t.len() {
        t.skip(dot + 1)
    } else {
        Seq::empty()
    };
    if whole.len() + frac.len() > 0 && is_decimal_text(whole) && is_decimal_text(frac) {
        let value = decimal_number(whole) * 1_000_000 + decimal_number(micro_digits(frac));
        if value <= u64::MAX {
            Some(value as u64)
        } else {
            None
        }
    } else {
        None
    }
}

/// Digits followed by a zero write ten times the number.
proof fn lemma_push_zero(s: Seq<char>)
    ensures
        decimal_number(s.push('0')) == 10 * decimal_number(s),
        is_decimal_text(s) ==> is_decimal_text(s.push('0')),
{
    assert(s.push('0').drop_last() =~= s);
    assert(s.push('0').last() == '0');
    if is_decimal_text(s) {
        assert forall|i: int| 0 <= i < s.push('0').len() implies (
        #[trigger] decimal_digit(s.push('0')[i])) is Some by {
            if i < s.len() {
                assert(s.push('0')[i] == s[i]);
                assert(decimal_digit(s[i]) is Some);
            }
        }
    }
}

/// Six digits write a number below a million.
proof fn lemma_decimal_bound(s: Seq<char>)
    requires
        is_decimal_text(s),
    ensures
        decimal_number(s) < vstd::arithmetic::power::pow(10, s.len()),
    decreases s.len(),
{
    reveal(vstd::arithmetic::power::pow);
    if s.len() > 0 {
        let rest = s.drop_last();
        assert forall|i: int| 0 <= i < rest.len() implies (#[trigger] decimal_digit(
            rest[i],
        )) is Some by {
            assert(rest[i] == s[i]);
            assert(decimal_digit(s[i]) is Some);
        }
        lemma_decimal_bound(rest);
        assert(decimal_digit(s.last()) is Some);
        assert(decimal_digit(s[s.len() - 1]) is Some);
    }
}

/// At most six digits write a number below a million; fewer than six, one
/// below a hundred thousand.
proof fn lemma_pow_six(n: nat)
    requires
        n <= 6,
    ensures
        vstd::arithmetic::power::pow(10, n) <= 1_000_000,
        n < 6 ==> vstd::arithmetic::power::pow(10, n) <= 100_000,
{
    reveal_with_fuel(vstd::arithmetic::power::pow, 8);
}

/// The millionths that the digits after a point write, if they are digits.
pub open spec fn parse_fraction(frac: Seq<char>) -> Option<nat> {
    if is_decimal_text(frac) {
        Some(decimal_number(micro_digits(frac)))
    } else {
        None
    }
}

/// Whether the characters of `s` from `from` on are all decimal digits.
fn all_digits(s: &Vec<char>, from: usize) -> (all: bool)
    requires
        from <= s.len(),
    ensures
        all == is_decimal_text(s@.subrange(from as int, s.len() as int)),
{
    let ghost part = s@.subrange(from as int, s.len() as int);
    let mut i: usize = from;
    while i < s.len()
        invariant
            from <= i <= s.len(),
            part == s@.subrange(from as int, s.len() as int),
            forall|j: int| 0 <= j < i - from ==> (#[trigger] decimal_digit(part[j])) is Some,
        decreases s.len() - i,
    {
        match digit_of(s[i]) {
            Some(_) => {},
            None => {
                assert(part[i - from] == s@[i as int]);
                assert(decimal_digit(part[i - from]) is None);
                return false;
            },
        }
        assert(part[i - from] == s@[i as int]);
        i += 1;
    }
    true
}

/// Fewer than six digits, filled up with zeros, write the number they write
/// times ten for each zero.
fn fill_up(millionths: u64, count: usize, Ghost(digits): Ghost<Seq<char>>) -> (r: u64)
    requires
        count <= 6,
        digits.len() == count,
        is_decimal_text(digits),
        millionths == decimal_number(digits),
    ensures
        r == decimal_number(micro_digits(digits)),
        r < 1_000_000,
    decreases 6 - count,
{
    proof {
        lemma_decimal_bound(digits);
        lemma_pow_six(digits.len());
    }
    if count >= 6 {
        assert(digits.take(6) =~= digits);
        millionths
    } else {
        proof {
            lemma_push_zero(digits);
        }
        fill_up(millionths * 10, count + 1, Ghost(digits.push('0')))
    }
}

/// Reads the characters of `s` from `from` on as the digits after a point.
fn read_fraction(s: &Vec<char>, from: usize) -> (r: Option<u64>)
    requires
        from <= s.len(),
    ensures
        match r {
            Some(v) => parse_fraction(s@.subrange(from as int, s.len() as int)) == Some(v as nat)
                && v < 1_000_000,
            None => parse_fraction(s@.subrange(from as int, s.len() as int)) is None,
        },
{
    let ghost frac = s@.subrange(from as int, s.len() as int);
    if !all_digits(s, from) {
        return None;
    }
    let to: usize = if s.len() - from > DENSITY_DIGITS {
        from + DENSITY_DIGITS
    } else {
        s.len()
    };
    let ghost head = s@.subrange(from as int, to as int);
    proof {
        assert(head =~= frac.take(to - from));
        assert forall|j: int| 0 <= j < head.len() implies (#[trigger] decimal_digit(
            head[j],
        )) is Some by {
            assert(head[j] == frac[j]);
            assert(decimal_digit(frac[j]) is Some);
        }
        lemma_decimal_bound(head);
        lemma_pow_six(head.len());
        if frac.len() >= 6 {
            assert(micro_digits(frac) == head);
            assert(head.take(6) =~= head);
        } else {
            assert(head =~= frac);
        }
    }
    match read_digits(s, from, to, 999_999) {
        Some(v) => Some(fill_up(v, to - from, Ghost(head))),
        None => None,
    }
}

/// Reads a density in millionths.
pub fn read_density(s: &Vec<char>) -> (r: Option<u64>)
    ensures
        r == parse_density(s@),
{
    let start: usize = if s.len() > 0 && s[0] == '+' {
        1
    } else {
        0
    };
    let ghost t = s@.skip(start as int);
    assert(s@.skip(0) =~= s@);
    let dot: usize = find_char(s, start, '.');
    let ghost whole = t.take(dot - start);
    assert(whole =~= s@.subrange(start as int, dot as int));
    let frac_from: usize = if dot < s.len() {
        dot + 1
    } else {
        dot
    };
    let ghost frac = s@.subrange(frac_from as int, s.len() as int);
    proof {
        if dot < s.len() {
            assert(t.skip(dot - start + 1) =~= frac);
        } else {
            assert(frac =~= Seq::<char>::empty());
        }
    }
    if (dot - start) + (s.len() - frac_from) == 0 {
        return None;
    }
    let millionths: u64 = match read_fraction(s, frac_from) {
        Some(v) => v,
        None => {
            return None;
        },
    };
    let units: u64 = match read_digits(s, start, dot, u64::MAX) {
        Some(v) => v,
        None => {
            proof {
                if is_decimal_text(whole) {
                    assert(decimal_number(whole) * 1_000_000 >= decimal_number(whole))
                        by (nonlinear_arith);
                }
            }
            return None;
        },
    };
    let value: u128 = units as u128 * 1_000_000 + millionths as u128;
    if value > u64::MAX as u128 {
        None
    } else {
        Some(value as u64)
    }
}

/// A block that has its id and nothing else yet.
pub open spec fn empty_block(id: u16) -> BlockView {
    BlockView {
        id: Some(id),
        name: None,
        category: None,
        base_color: None,
        variant_color: None,
        is_movable: None,
        density: None,
    }
}

/// Reading of a 16-bit number.
pub open spec fn parse_u16(s: Seq<char>) -> Option<u16> {
    match parse_unsigned(s, 65535) {
        Some(n) => Some(n as u16),
        None => None,
    }
}

/// Reading of `true` or `false`.
pub open spec fn parse_truth(s: Seq<char>) -> Option<bool> {
    if s == "true"@ {
        Some(true)
    } else if s == "false"@ {
        Some(false)
    } else {
        None
    }
}

/// The block `b` after the line `key: value`. A key that is not known
/// leaves it as it is; a value that cannot be read empties its field.
pub open spec fn assigned(b: BlockView, key: Seq<char>, value: Seq<char>) -> BlockView {
    if key == "name"@ {
        BlockView { name: Some(value), ..b }
    } else if key == "category"@ {
        BlockView { category: parse_u16(value), ..b }
    } else if key == "base_color"@ {
        BlockView { base_color: Some(value), ..b }
    } else if key == "variant_color"@ {
        BlockView { variant_color: Some(value), ..b }
    } else if key == "is_movable"@ {
        BlockView { is_movable: parse_truth(value), ..b }
    } else if key == "density"@ {
        BlockView { density: parse_density(value), ..b }
    } else {
        b
    }
}

/// What has been read of a text: the blocks met so far, each with a new id,
/// whether the last of them still takes lines, and the ids of the headers
/// that were passed over because a block had their id already.
pub struct ParseState {
    pub blocks: Seq<BlockView>,
    pub open: bool,
    pub duplicates: Seq<u16>,
}

/// Whether one of the blocks has the id `id`.
pub open spec fn has_id(blocks: Seq<BlockView>, id: u16) -> bool {
    exists|i: int| 0 <= i < blocks.len() && (#[trigger] blocks[i]).id == Some(id)
}

/// Whether a trimmed line starts a block.
pub open spec fn is_header(line: Seq<char>) -> bool {
    line.len() >= 2 && line[0] == '[' && line.last() == ']'
}

/// The id that a header names; zero where it names none that can be read.
pub open spec fn header_id(line: Seq<char>) -> u16 {
    match parse_u16(line.subrange(1, line.len() - 1)) {
        Some(id) => id,
        None => 0,
    }
}

/// The state after one more line.
pub open spec fn step(st: ParseState, raw: Seq<char>) -> ParseState {
    let line = trimmed(raw);
    if line.len() == 0 || line[0] == '#' {
        st
    } else if is_header(line) {
        let id = header_id(line);
        if has_id(st.blocks, id) {
            ParseState { blocks: st.blocks, open: false, duplicates: st.duplicates.push(id) }
        } else {
            ParseState {
                blocks: st.blocks.push(empty_block(id)),
                open: true,
                duplicates: st.duplicates,
            }
        }
    } else if st.open && st.blocks.len() > 0 {
        let colon = index_of_char(line, ':');
        if colon < line.len() {
            let key = line.take(colon);
            let value = trimmed(line.skip(colon + 1));
            ParseState {
                blocks: st.blocks.update(
                    st.blocks.len() - 1,
                    assigned(st.blocks.last(), key, value),
                ),
                open: true,
                duplicates: st.duplicates,
            }
        } else {
            st
        }
    } else {
        st
    }
}

/// The state after the lines `lines`, one after the other.
pub open spec fn run(st: ParseState, lines: Seq<Seq<char>>) -> ParseState
    decreases lines.len(),
{
    if lines.len() == 0 {
        st
    } else {
        run(step(st, lines[0]), lines.skip(1))
    }
}

/// What a whole text reads as.
pub open spec fn parsed(text: Seq<char>) -> ParseState {
    run(
        ParseState { blocks: Seq::empty(), open: false, duplicates: Seq::empty() },
        split_lines(text),
    )
}

/// The blocks of a text.
pub open spec fn parsed_blocks(text: Seq<char>) -> Seq<BlockView> {
    parsed(text).blocks
}

/// Why a block of the text gives the catalog no material.
#[derive(Debug, Clone, Copy, PartialEq, Eq, Structural)]
pub enum DropReason {
    /// An earlier block has the same id.
    DuplicateId,
    /// The block lacks a key, or the value of one could not be read.
    MissingKey,
    /// The id is one of those kept for the engine's own materials.
    ReservedId,
}

/// A block of the text that was dropped, by its id, and why.
#[derive(Debug, Clone, Copy, PartialEq, Eq, Structural)]
pub struct DroppedBlock {
    pub id: u16,
    pub reason: DropReason,
}

/// The id of a block.
pub open spec fn block_id(b: BlockView) -> u16 {
    match b.id {
        Some(id) => id,
        None => 0,
    }
}

/// What is to be said of a block that was kept while the text was read:
/// nothing if it defines a material, else why it does not.
pub open spec fn block_drop(b: BlockView) -> Option<DroppedBlock> {
    if !complete(b) {
        Some(DroppedBlock { id: block_id(b), reason: DropReason::MissingKey })
    } else if block_id(b) < FIRST_USER_ID {
        Some(DroppedBlock { id: block_id(b), reason: DropReason::ReservedId })
    } else {
        None
    }
}

/// The headers passed over, as dropped blocks.
pub open spec fn duplicates_dropped(ids: Seq<u16>) -> Seq<DroppedBlock> {
    ids.map_values(|id: u16| DroppedBlock { id: id, reason: DropReason::DuplicateId })
}

/// The blocks of a text that give the catalog no material: first those
/// whose id an earlier block had, in the order of the text, then those that
/// lack a key or have a reserved id, in the order of the text.
pub open spec fn dropped_blocks(text: Seq<char>) -> Seq<DroppedBlock> {
    duplicates_dropped(parsed(text).duplicates) + kept_dropped(parsed(text).blocks)
}

/// Of the blocks that were kept while the text was read, those that define
/// no material, with the reason of each.
pub open spec fn kept_dropped(blocks: Seq<BlockView>) -> Seq<DroppedBlock> {
    blocks.filter_map(|b: BlockView| block_drop(b))
}

/// Whether a block has every field that a material needs.
pub open spec fn complete(b: BlockView) -> bool {
    &&& b.id is Some
    &&& b.name is Some
    &&& b.category is Some
    &&& b.base_color is Some
    &&& b.variant_color is Some
    &&& b.is_movable is Some
    &&& b.density is Some
}

/// The material that a complete block defines.
pub open spec fn material_of(b: BlockView) -> MaterialView {
    MaterialView {
        id: b.id->0,
        name: b.name->0,
        category: b.category->0,
        base_color: b.base_color->0,
        variant_color: b.variant_color->0,
        is_movable: b.is_movable->0,
        density: b.density->0,
    }
}

/// The material that every catalog has: nothing, which anything can move
/// into.
pub open spec fn empty_material() -> MaterialView {
    MaterialView {
        id: 0,
        name: "Empty"@,
        category: 0,
        base_color: "#0E0E11"@,
        variant_color: "#0E0E11"@,
        is_movable: true,
        density: 0,
    }
}

/// Whether the block at `j` gives the catalog the material `id`.
pub open spec fn defines(blocks: Seq<BlockView>, j: int, id: u16) -> bool {
    &&& 0 <= j < blocks.len()
    &&& id >= FIRST_USER_ID
    &&& blocks[j].id == Some(id)
    &&& complete(blocks[j])
}

/// Whether `catalog` is the catalog that `blocks` define: the empty material
/// under `0` and, under each id from ten on that a complete block has, the
/// material of that block.
pub open spec fn is_catalog_of(catalog: Map<u16, ParticleData>, blocks: Seq<BlockView>) -> bool {
    &&& catalog.contains_key(0)
    &&& catalog[0]@ == empty_material()
    &&& forall|id: u16|
        id != 0 ==> (#[trigger] catalog.contains_key(id) <==> exists|j: int|
            defines(blocks, j, id))
    &&& forall|id: u16, j: int| #[trigger]
        defines(blocks, j, id) ==> catalog[id]@ == material_of(blocks[j])
}

/// Whether no two blocks have the same id.
pub open spec fn distinct_ids(blocks: Seq<BlockView>) -> bool {
    forall|i: int, j: int|
        0 <= i < j < blocks.len() ==> (#[trigger] blocks[i]).id != (#[trigger] blocks[j]).id
}

/// A line leaves the ids of the blocks distinct.
pub proof fn lemma_step_distinct(st: ParseState, raw: Seq<char>)
    requires
        distinct_ids(st.blocks),
    ensures
        distinct_ids(step(st, raw).blocks),
{
    let next = step(st, raw).blocks;
    let line = trimmed(raw);
    assert forall|i: int, j: int| 0 <= i < j < next.len() implies (#[trigger] next[i]).id != (
    #[trigger] next[j]).id by {
        if j < st.blocks.len() {
            assert(st.blocks[i].id != st.blocks[j].id);
        } else {
            assert(next[j] == empty_block(header_id(line)));
            assert(!has_id(st.blocks, header_id(line)));
            assert(st.blocks[i].id != Some(header_id(line)));
        }
    }
}

/// No two blocks of a text have the same id: of the blocks that name an id,
/// the text's first is the only one that is kept.
pub proof fn lemma_run_distinct(st: ParseState, lines: Seq<Seq<char>>)
    requires
        distinct_ids(st.blocks),
    ensures
        distinct_ids(run(st, lines).blocks),
    decreases lines.len(),
{
    if lines.len() > 0 {
        lemma_step_distinct(st, lines[0]);
        lemma_run_distinct(step(st, lines[0]), lines.skip(1));
    }
}

/// The blocks as they stand in contracts.
pub open spec fn blocks_view(blocks: Seq<ParticleParseData>) -> Seq<BlockView> {
    blocks.map_values(|b: ParticleParseData| b@)
}

/// Whether `v` holds the characters of `word`.
fn same_text(v: &Vec<char>, word: &str) -> (same: bool)
    ensures
        same == (v@ == word@),
{
    let w = chars_of(word);
    if v.len() != w.len() {
        return false;
    }
    let mut i: usize = 0;
    while i < v.len()
        invariant
            i <= v.len(),
            v.len() == w.len(),
            w@ == word@,
            forall|j: int| 0 <= j < i ==> v@[j] == w@[j],
        decreases v.len() - i,
    {
        if v[i] != w[i] {
            return false;
        }
        i += 1;
    }
    assert(v@ =~= w@);
    true
}

/// Reads a 16-bit number.
fn read_u16(s: &Vec<char>) -> (r: Option<u16>)
    ensures
        r == parse_u16(s@),
{
    match read_unsigned(s, 65535) {
        Some(v) => Some(v as u16),
        None => None,
    }
}

/// Reads `true` or `false`.
fn read_truth(s: &Vec<char>) -> (r: Option<bool>)
    ensures
        r == parse_truth(s@),
{
    if same_text(s, "true") {
        Some(true)
    } else if same_text(s, "false") {
        Some(false)
    } else {
        None
    }
}

/// Whether one of the blocks has the id `id`.
fn has_block(blocks: &Vec<ParticleParseData>, id: u16) -> (found: bool)
    ensures
        found == has_id(blocks_view(blocks@), id),
{
    let ghost views = blocks_view(blocks@);
    let mut i: usize = 0;
    while i < blocks.len()
        invariant
            i <= blocks.len(),
            views == blocks_view(blocks@),
            forall|j: int| 0 <= j < i ==> (#[trigger] views[j]).id != Some(id),
        decreases blocks.len() - i,
    {
        match blocks[i].id {
            Some(other) => {
                if other == id {
                    assert(views[i as int].id == Some(id));
                    return true;
                }
            },
            None => {},
        }
        assert(views[i as int].id != Some(id));
        i += 1;
    }
    false
}

/// Takes the line `key: value` into a block.
fn assign(block: &mut ParticleParseData, key: &Vec<char>, value: &Vec<char>)
    ensures
        final(block)@ == assigned(old(block)@, key@, value@),
{
    if same_text(key, "name") {
        block.name = Some(string_of(value));
    } else if same_text(key, "category") {
        block.category = read_u16(value);
    } else if same_text(key, "base_color") {
        block.base_color = Some(string_of(value));
    } else if same_text(key, "variant_color") {
        block.variant_color = Some(string_of(value));
    } else if same_text(key, "is_movable") {
        block.is_movable = read_truth(value);
    } else if same_text(key, "density") {
        block.density = read_density(value);
    }
}

/// Takes one more line of the text into the blocks.
fn step_line(
    blocks: &mut Vec<ParticleParseData>,
    open: &mut bool,
    duplicates: &mut Vec<u16>,
    raw: &Vec<char>,
)
    ensures
        (ParseState {
            blocks: blocks_view(final(blocks)@),
            open: *final(open),
            duplicates: final(duplicates)@,
        }) == step(
            ParseState {
                blocks: blocks_view(old(blocks)@),
                open: *old(open),
                duplicates: old(duplicates)@,
            },
            raw@,
        ),
{
    let ghost before = blocks_view(blocks@);
    let line = trim_chars(raw);
    if line.len() == 0 || line[0] == '#' {
        return ;
    }
    if line.len() >= 2 && line[0] == '[' && line[line.len() - 1] == ']' {
        let id_text = slice_of(&line, 1, line.len() - 1);
        let id: u16 = match read_u16(&id_text) {
            Some(id) => id,
            None => 0,
        };
        if has_block(blocks, id) {
            *open = false;
            duplicates.push(id);
        } else {
            blocks.push(
                ParticleParseData {
                    id: Some(id),
                    name: None,
                    category: None,
                    base_color: None,
                    variant_color: None,
                    is_movable: None,
                    density: None,
                },
            );
            *open = true;
            assert(blocks_view(blocks@) =~= before.push(empty_block(id)));
        }
        return ;
    }
    if *open && blocks.len() > 0 {
        let colon = find_char(&line, 0, ':');
        assert(line@.skip(0) =~= line@);
        if colon < line.len() {
            let key = slice_of(&line, 0, colon);
            let rest = slice_of(&line, colon + 1, line.len());
            let value = trim_chars(&rest);
            assert(key@ =~= line@.take(colon as int));
            assert(rest@ =~= line@.skip(colon + 1));
            let last: usize = blocks.len() - 1;
            assign(&mut blocks[last], &key, &value);
            assert(blocks_view(blocks@) =~= before.update(
                last as int,
                assigned(before.last(), key@, value@),
            ));
        }
    }
}

/// The material that a block defines, if it is complete and its id is one
/// that a text may use.
fn material_from(block: &ParticleParseData) -> (m: Option<ParticleData>)
    ensures
        match m {
            Some(d) => complete(block@) && block@.id->0 >= FIRST_USER_ID && d@ == material_of(
                block@,
            ),
            None => !(complete(block@) && block@.id->0 >= FIRST_USER_ID),
        },
{
    let id: u16 = match block.id {
        Some(v) => v,
        None => {
            return None;
        },
    };
    if id < FIRST_USER_ID {
        return None;
    }
    let name: String = match &block.name {
        Some(v) => v.clone(),
        None => {
            return None;
        },
    };
    let category: u16 = match block.category {
        Some(v) => v,
        None => {
            return None;
        },
    };
    let base_color: String = match &block.base_color {
        Some(v) => v.clone(),
        None => {
            return None;
        },
    };
    let variant_color: String = match &block.variant_color {
        Some(v) => v.clone(),
        None => {
            return None;
        },
    };
    let is_movable: bool = match block.is_movable {
        Some(v) => v,
        None => {
            return None;
        },
    };
    let density: u64 = match block.density {
        Some(v) => v,
        None => {
            return None;
        },
    };
    Some(ParticleData { id, name, category, base_color, variant_color, is_movable, density })
}

/// The material "Empty".
pub fn empty_particle_data() -> (d: ParticleData)
    ensures
        d@ == empty_material(),
{
    ParticleData {
        id: 0,
        name: "Empty".to_owned(),
        category: 0,
        base_color: "#0E0E11".to_owned(),
        variant_color: "#0E0E11".to_owned(),
        is_movable: true,
        density: 0,
    }
}

/// The catalog that the blocks of a text define.
fn finish(blocks: &Vec<ParticleParseData>) -> (catalog: HashMap<u16, ParticleData>)
    requires
        distinct_ids(blocks_view(blocks@)),
    ensures
        is_catalog_of(catalog@, blocks_view(blocks@)),
{
    broadcast use vstd::std_specs::hash::group_hash_axioms;

    let ghost views = blocks_view(blocks@);
    let mut catalog: HashMap<u16, ParticleData> = HashMap::new();
    let mut i: usize = 0;
    while i < blocks.len()
        invariant
            i <= blocks.len(),
            views == blocks_view(blocks@),
            distinct_ids(views),
            forall|id: u16| #[trigger]
                catalog@.contains_key(id) <==> exists|j: int| j < i && defines(views, j, id),
            forall|id: u16, j: int|
                j < i && #[trigger] defines(views, j, id) ==> catalog@[id]@ == material_of(views[j]),
        decreases blocks.len() - i,
    {
        let ghost before = catalog@;
        match material_from(&blocks[i]) {
            Some(data) => {
                let id: u16 = data.id;
                assert(defines(views, i as int, id));
                catalog.insert(id, data);
                assert forall|other: u16| #[trigger]
                    catalog@.contains_key(other) <==> exists|j: int|
                        j < i + 1 && defines(views, j, other) by {
                    if other != id && before.contains_key(other) {
                        let j = choose|j: int| j < i && defines(views, j, other);
                        assert(j < i + 1 && defines(views, j, other));
                    }
                    if exists|j: int| j < i + 1 && defines(views, j, other) {
                        let j = choose|j: int| j < i + 1 && defines(views, j, other);
                        if j < i {
                            assert(before.contains_key(other));
                        }
                    }
                }
                assert forall|other: u16, j: int|
                    j < i + 1 && #[trigger] defines(views, j, other) implies catalog@[other]@
                    == material_of(views[j]) by {
                    if j < i {
                        assert(before[other]@ == material_of(views[j]));
                        if other == id {
                            assert(views[j].id == views[i as int].id);
                        }
                    }
                }
            },
            None => {
                assert forall|other: u16| #[trigger]
                    catalog@.contains_key(other) <==> exists|j: int|
                        j < i + 1 && defines(views, j, other) by {
                    if before.contains_key(other) {
                        let j = choose|j: int| j < i && defines(views, j, other);
                        assert(j < i + 1 && defines(views, j, other));
                    }
                    if exists|j: int| j < i + 1 && defines(views, j, other) {
                        let j = choose|j: int| j < i + 1 && defines(views, j, other);
                        assert(j != i);
                        assert(j < i && defines(views, j, other));
                    }
                }
            },
        }
        i += 1;
    }
    let ghost before = catalog@;
    assert(!before.contains_key(0)) by {
        if before.contains_key(0) {
            let j = choose|j: int| j < i && defines(views, j, 0);
            assert(defines(views, j, 0));
        }
    }
    catalog.insert(0, empty_particle_data());
    assert forall|id: u16| id != 0 implies (#[trigger] catalog@.contains_key(id) <==> exists|j: int|
        defines(views, j, id)) by {
        if before.contains_key(id) {
            let j = choose|j: int| j < i && defines(views, j, id);
            assert(defines(views, j, id));
        }
        if exists|j: int| defines(views, j, id) {
            let j = choose|j: int| defines(views, j, id);
            assert(j < i && defines(views, j, id));
        }
    }
    assert forall|id: u16, j: int| #[trigger] defines(views, j, id) implies catalog@[id]@
        == material_of(views[j]) by {
        assert(j < i);
        assert(before[id]@ == material_of(views[j]));
    }
    catalog
}

/// A catalog that blocks define has each material under its own id.
pub proof fn lemma_catalog_keys(catalog: Map<u16, ParticleData>, blocks: Seq<BlockView>)
    requires
        is_catalog_of(catalog, blocks),
    ensures
        keys_are_ids(catalog),
{
    reveal_strlit("Empty");
    assert forall|id: u16| #[trigger] catalog.contains_key(id) implies catalog[id].id == id by {
        if id != 0 {
            let j = choose|j: int| defines(blocks, j, id);
            assert(defines(blocks, j, id));
            assert(catalog[id]@ == material_of(blocks[j]));
        } else {
            assert(catalog[0]@ == empty_material());
        }
    }
}

/// The blocks of a text and the ids of the headers that were passed over.
fn read_blocks(text: &str) -> (r: (Vec<ParticleParseData>, Vec<u16>))
    ensures
        blocks_view(r.0@) == parsed(text@).blocks,
        r.1@ == parsed(text@).duplicates,
        distinct_ids(blocks_view(r.0@)),
{
    let all: Vec<char> = chars_of(text);
    let lines: Vec<Vec<char>> = lines_of(&all);
    let ghost all_lines = split_lines(text@);
    let ghost start = ParseState { blocks: Seq::empty(), open: false, duplicates: Seq::empty() };
    let mut blocks: Vec<ParticleParseData> = Vec::new();
    let mut duplicates: Vec<u16> = Vec::new();
    let mut open: bool = false;
    assert(blocks_view(blocks@) =~= Seq::<BlockView>::empty());
    assert(all_lines.skip(0) =~= all_lines);
    let mut i: usize = 0;
    while i < lines.len()
        invariant
            i <= lines.len(),
            all_lines == lines@.map_values(|l: Vec<char>| l@),
            distinct_ids(blocks_view(blocks@)),
            run(start, all_lines) == run(
                ParseState {
                    blocks: blocks_view(blocks@),
                    open: open,
                    duplicates: duplicates@,
                },
                all_lines.skip(i as int),
            ),
        decreases lines.len() - i,
    {
        let ghost before = ParseState {
            blocks: blocks_view(blocks@),
            open: open,
            duplicates: duplicates@,
        };
        step_line(&mut blocks, &mut open, &mut duplicates, &lines[i]);
        proof {
            lemma_step_distinct(before, lines@[i as int]@);
            assert(all_lines.skip(i as int)[0] == lines@[i as int]@);
            assert(all_lines.skip(i as int).skip(1) =~= all_lines.skip(i + 1));
        }
        i += 1;
    }
    assert(all_lines.skip(i as int).len() == 0);
    (blocks, duplicates)
}

/// What is to be said of a block that was kept while the text was read.
fn drop_of(block: &ParticleParseData) -> (r: Option<DroppedBlock>)
    ensures
        r == block_drop(block@),
{
    let id: u16 = match block.id {
        Some(id) => id,
        None => 0,
    };
    let whole: bool = block.id.is_some() && block.name.is_some() && block.category.is_some()
        && block.base_color.is_some() && block.variant_color.is_some()
        && block.is_movable.is_some() && block.density.is_some();
    if !whole {
        Some(DroppedBlock { id: id, reason: DropReason::MissingKey })
    } else if id < FIRST_USER_ID {
        Some(DroppedBlock { id: id, reason: DropReason::ReservedId })
    } else {
        None
    }
}

/// The account of the blocks that define no material.
fn dropped_of(blocks: &Vec<ParticleParseData>, duplicates: &Vec<u16>) -> (dropped: Vec<DroppedBlock>)
    ensures
        dropped@ == duplicates_dropped(duplicates@) + kept_dropped(blocks_view(blocks@)),
{
    let ghost views = blocks_view(blocks@);
    let ghost pick = |b: BlockView| block_drop(b);
    let mut dropped: Vec<DroppedBlock> = Vec::new();
    let mut i: usize = 0;
    while i < duplicates.len()
        invariant
            i <= duplicates@.len(),
            dropped@ == duplicates_dropped(duplicates@.take(i as int)),
        decreases duplicates.len() - i,
    {
        dropped.push(DroppedBlock { id: duplicates[i], reason: DropReason::DuplicateId });
        i += 1;
        assert(dropped@ =~= duplicates_dropped(duplicates@.take(i as int)));
    }
    assert(duplicates@.take(i as int) =~= duplicates@);
    let ghost first = dropped@;
    let mut j: usize = 0;
    assert(views.take(0) =~= Seq::<BlockView>::empty());
    while j < blocks.len()
        invariant
            j <= blocks@.len(),
            views == blocks_view(blocks@),
            pick == |b: BlockView| block_drop(b),
            first == duplicates_dropped(duplicates@),
            dropped@ == first + views.take(j as int).filter_map(pick),
        decreases blocks.len() - j,
    {
        proof {
            views.lemma_filter_map_take_succ(pick, j as int);
        }
        match drop_of(&blocks[j]) {
            Some(d) => {
                dropped.push(d);
                assert(dropped@ =~= first + views.take(j + 1).filter_map(pick));
            },
            None => {
                assert(dropped@ =~= first + views.take(j + 1).filter_map(pick));
            },
        }
        j += 1;
    }
    assert(views.take(j as int) =~= views);
    dropped
}

/// A catalog, and an account of the blocks of its text that gave it no
/// material.
pub struct CatalogReport {
    pub catalog: HashMap<u16, ParticleData>,
    pub dropped: Vec<DroppedBlock>,
}

/// Reads the catalog of materials from its text, and tells which blocks
/// were dropped and why.
pub fn parse_particle_report(text: &str) -> (report: CatalogReport)
    ensures
        is_catalog_of(report.catalog@, parsed_blocks(text@)),
        keys_are_ids(report.catalog@),
        report.dropped@ == dropped_blocks(text@),
{
    let (blocks, duplicates) = read_blocks(text);
    let catalog = finish(&blocks);
    let dropped = dropped_of(&blocks, &duplicates);
    proof {
        lemma_catalog_keys(catalog@, blocks_view(blocks@));
    }
    CatalogReport { catalog: catalog, dropped: dropped }
}

/// Reads the catalog of materials from its text.
pub fn parse_particle_data(text: &str) -> (catalog: HashMap<u16, ParticleData>)
    ensures
        is_catalog_of(catalog@, parsed_blocks(text@)),
        keys_are_ids(catalog@),
{
    parse_particle_report(text).catalog
}

} // verus!