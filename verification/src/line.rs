//! Sliding and merging one line of four cells.
//!
//! A line lists its cells from the edge that the tiles move toward. A cell
//! holds an exponent: the tile shown is two to that power, and 0 is an empty
//! cell. A line is packed into a key of four five-bit fields, the first cell
//! in the highest field.

use vstd::prelude::*;

verus! {

/// Number of keys: four fields of five bits.
pub const KEY_SPACE: usize = 0x10_0000;

/// The tiles of `line`, that is its non-empty cells, in order.
pub open spec fn tiles(line: Seq<nat>) -> Seq<nat>
    decreases line.len(),
{
    if line.len() == 0 {
        Seq::empty()
    } else if line[0] == 0 {
        tiles(line.skip(1))
    } else {
        seq![line[0]] + tiles(line.skip(1))
    }
}

/// Merges equal neighbours from the front. A tile that came out of a merge
/// does not merge again.
pub open spec fn fuse(t: Seq<nat>) -> Seq<nat>
    decreases t.len(),
{
    if t.len() < 2 {
        t
    } else if t[0] == t[1] {
        seq![t[0] + 1] + fuse(t.skip(2))
    } else {
        seq![t[0]] + fuse(t.skip(1))
    }
}

/// `t` followed by empty cells, four cells in all.
pub open spec fn pad(t: Seq<nat>) -> Seq<nat> {
    Seq::new(4, |i: int| if i < t.len() { t[i] } else { 0 })
}

/// The line after a move: tiles packed toward the front, equal neighbours merged.
pub open spec fn slide(line: Seq<nat>) -> Seq<nat> {
    pad(fuse(tiles(line)))
}

/// The key of a line of four cells.
pub open spec fn pack(line: Seq<nat>) -> nat {
    line[0] * 32768 + line[1] * 1024 + line[2] * 32 + line[3]
}

/// The four cells that the low twenty bits of `key` hold.
pub open spec fn unpack(key: nat) -> Seq<nat> {
    seq![(key / 32768) % 32, (key / 1024) % 32, (key / 32) % 32, key % 32]
}

/// The key that a move makes of `key`. Where two tiles of exponent 31 merge,
/// their field holds 32 and carries into the next one.
pub open spec fn transformed(key: nat) -> nat {
    pack(slide(unpack(key)))
}

/// A line of four cells, each of which fits its field.
pub open spec fn is_line(line: Seq<nat>) -> bool {
    line.len() == 4 && forall|i: int| 0 <= i < 4 ==> line[i] <= 31
}

/// The line as the grid holds it after a move: the cells that the key of the
/// slid line holds. It is `slide(line)` unless two tiles of exponent 31 merge.
pub open spec fn settled(line: Seq<nat>) -> Seq<nat> {
    unpack(pack(slide(line)))
}

/// A move changes the line: its key is not the key of the slid line.
pub open spec fn line_moves(line: Seq<nat>) -> bool {
    pack(slide(line)) != pack(line)
}

/// The tile `behind` has neither an empty cell nor an equal tile in front of it.
pub open spec fn keeps_place(front: nat, behind: nat) -> bool {
    behind != 0 ==> front != 0 && front != behind
}

/// No tile of the line can move or merge.
pub open spec fn at_rest(line: Seq<nat>) -> bool {
    keeps_place(line[0], line[1]) && keeps_place(line[1], line[2]) && keeps_place(
        line[2],
        line[3],
    )
}

/// The tiles of a line of four cells, cell by cell.
proof fn lemma_tiles_of_four(a: nat, b: nat, c: nat, d: nat)
    ensures
        tiles(seq![a, b, c, d]) =~= (if a != 0 {
            seq![a]
        } else {
            Seq::empty()
        }) + (if b != 0 {
            seq![b]
        } else {
            Seq::empty()
        }) + (if c != 0 {
            seq![c]
        } else {
            Seq::empty()
        }) + (if d != 0 {
            seq![d]
        } else {
            Seq::empty()
        }),
{
    reveal_with_fuel(tiles, 5);
    let line = seq![a, b, c, d];
    assert(line.skip(1) =~= seq![b, c, d]);
    assert(line.skip(1).skip(1) =~= seq![c, d]);
    assert(line.skip(1).skip(1).skip(1) =~= seq![d]);
    assert(line.skip(1).skip(1).skip(1).skip(1) =~= Seq::<nat>::empty());
}

/// The slid line has four cells, and none is above the greatest cell of the
/// line plus one.
pub proof fn lemma_slide_is_bounded(line: Seq<nat>, top: nat)
    requires
        line.len() == 4,
        forall|i: int| 0 <= i < 4 ==> line[i] <= top,
    ensures
        slide(line).len() == 4,
        forall|i: int| 0 <= i < 4 ==> slide(line)[i] <= top + 1,
{
    reveal_with_fuel(fuse, 5);
    lemma_tiles_of_four(line[0], line[1], line[2], line[3]);
    assert(line =~= seq![line[0], line[1], line[2], line[3]]);
}

/// A line at rest slides to itself, and no other line does.
pub proof fn lemma_slide_keeps_line_at_rest(line: Seq<nat>)
    requires
        line.len() == 4,
    ensures
        at_rest(line) <==> slide(line) == line,
{
    reveal_with_fuel(fuse, 5);
    lemma_tiles_of_four(line[0], line[1], line[2], line[3]);
    assert(line =~= seq![line[0], line[1], line[2], line[3]]);
    if at_rest(line) {
        assert(slide(line) =~= line);
    } else {
        assert(slide(line)[0] != line[0] || slide(line)[1] != line[1] || slide(line)[2]
            != line[2] || slide(line)[3] != line[3]);
    }
}

/// A line that is not at rest slides to a line whose last cell is empty and
/// whose first difference from the line is a greater cell.
proof fn lemma_slide_moves_forward(line: Seq<nat>)
    requires
        line.len() == 4,
        !at_rest(line),
    ensures
        slide(line)[3] == 0,
        slide(line)[0] > line[0] || (slide(line)[0] == line[0] && (slide(line)[1] > line[1] || (
        slide(line)[1] == line[1] && slide(line)[2] > line[2]))),
{
    reveal_with_fuel(fuse, 5);
    lemma_tiles_of_four(line[0], line[1], line[2], line[3]);
    assert(line =~= seq![line[0], line[1], line[2], line[3]]);
}

/// A move changes a line exactly when the line is not at rest.
pub proof fn lemma_line_moves(line: Seq<nat>)
    requires
        is_line(line),
    ensures
        line_moves(line) <==> !at_rest(line),
        line_moves(line) <==> slide(line) != line,
        line_moves(line) ==> slide(line)[3] == 0,
{
    lemma_slide_keeps_line_at_rest(line);
    if !at_rest(line) {
        lemma_slide_moves_forward(line);
        lemma_slide_is_bounded(line, 31);
    }
}

/// Packing a line and unpacking its key gives the line back.
pub proof fn lemma_pack(line: Seq<nat>)
    requires
        is_line(line),
    ensures
        pack(line) < 0x10_0000,
        unpack(pack(line)) == line,
{
    let key = pack(line);
    let high = line[0] * 32 + line[1];
    let mid = high * 32 + line[2];
    assert(key == mid * 32 + line[3]);
    assert(key % 32 == line[3] && key / 32 == mid);
    assert(mid % 32 == line[2] && mid / 32 == high);
    assert(high % 32 == line[1] && high / 32 == line[0]);
    assert(key / 1024 == high);
    assert(key / 32768 == line[0]);
    assert(unpack(key) =~= line);
}

/// What a field keeps of a value: the value itself, or 32 less if the
/// value does not fit.
spec fn kept(field: nat) -> nat {
    if field >= 32 {
        (field - 32) as nat
    } else {
        field
    }
}

/// What a field hands to the next field: one, if its value does not fit.
spec fn carried(field: nat) -> nat {
    if field >= 32 {
        1
    } else {
        0
    }
}

/// The cells that the key of a slid line holds, field by field.
proof fn lemma_unpack_with_carry(s: Seq<nat>)
    requires
        s.len() == 4,
        forall|i: int| 0 <= i < 4 ==> s[i] <= 32,
    ensures
        unpack(pack(s)) == seq![
            kept(s[0] + carried(s[1] + carried(s[2] + carried(s[3])))),
            kept(s[1] + carried(s[2] + carried(s[3]))),
            kept(s[2] + carried(s[3])),
            kept(s[3]),
        ],
{
    let key = pack(s);
    let high = s[0] * 32 + s[1];
    let mid = high * 32 + s[2];
    assert(key == mid * 32 + s[3]);
    assert(key % 32 == kept(s[3]) && key / 32 == mid + carried(s[3]));
    let mid_in = mid + carried(s[3]);
    assert(mid_in == high * 32 + (s[2] + carried(s[3])));
    assert(mid_in % 32 == kept(s[2] + carried(s[3])) && mid_in / 32 == high + carried(
        s[2] + carried(s[3]),
    ));
    let high_in = high + carried(s[2] + carried(s[3]));
    assert(high_in == s[0] * 32 + (s[1] + carried(s[2] + carried(s[3]))));
    assert(high_in % 32 == kept(s[1] + carried(s[2] + carried(s[3]))) && high_in / 32 == s[0]
        + carried(s[1] + carried(s[2] + carried(s[3]))));
    let top_in = s[0] + carried(s[1] + carried(s[2] + carried(s[3])));
    assert(top_in % 32 == kept(top_in));
    assert(key / 1024 == high_in);
    assert(key / 32768 == top_in);
    assert(unpack(key) =~= seq![
        kept(s[0] + carried(s[1] + carried(s[2] + carried(s[3])))),
        kept(s[1] + carried(s[2] + carried(s[3]))),
        kept(s[2] + carried(s[3])),
        kept(s[3]),
    ]);
}

/// A line that a move changes is stored changed, also where a field
/// overflows.
proof fn lemma_settled_differs(line: Seq<nat>)
    requires
        is_line(line),
        line_moves(line),
    ensures
        settled(line) != line,
{
    lemma_slide_is_bounded(line, 31);
    lemma_unpack_with_carry(slide(line));
    reveal_with_fuel(fuse, 5);
    lemma_tiles_of_four(line[0], line[1], line[2], line[3]);
    assert(line =~= seq![line[0], line[1], line[2], line[3]]);
    let t = settled(line);
    assert(t[0] != line[0] || t[1] != line[1] || t[2] != line[2] || t[3] != line[3]);
}

/// What a move stores is again a line. It is the line itself exactly when the
/// line is at rest; otherwise its last cell is empty. Without a tile of
/// exponent 31 it is the slid line.
pub proof fn lemma_settled(line: Seq<nat>)
    requires
        is_line(line),
    ensures
        is_line(settled(line)),
        line_moves(line) <==> settled(line) != line,
        line_moves(line) ==> settled(line)[3] == 0,
        (forall|i: int| 0 <= i < 4 ==> line[i] <= 30) ==> settled(line) == slide(line),
{
    lemma_line_moves(line);
    if !line_moves(line) {
        lemma_pack(line);
    } else {
        let s = slide(line);
        assert(pack(s) == (s[0] * 1024 + s[1] * 32 + s[2]) * 32);
        lemma_settled_differs(line);
    }
    if forall|i: int| 0 <= i < 4 ==> line[i] <= 30 {
        lemma_slide_is_bounded(line, 30);
        lemma_pack(slide(line));
    }
}

/// The cells of a scratch line, which holds the first cell in its last slot.
spec fn cells_of(slots: [u32; 4]) -> Seq<nat> {
    seq![slots[3] as nat, slots[2] as nat, slots[1] as nat, slots[0] as nat]
}

/// Shifting and masking a key gives the cells that it holds.
proof fn lemma_unpack_fields(key: u32)
    ensures
        (key & 0x1f) as nat == (key as nat) % 32,
        ((key >> 5) & 0x1f) as nat == (key as nat / 32) % 32,
        ((key >> 10) & 0x1f) as nat == (key as nat / 1024) % 32,
        ((key >> 15) & 0x1f) as nat == (key as nat / 32768) % 32,
        is_line(unpack(key as nat)),
{
    assert(key & 0x1f == key % 32) by (bit_vector);
    assert((key >> 5) & 0x1f == (key / 32) % 32) by (bit_vector);
    assert((key >> 10) & 0x1f == (key / 1024) % 32) by (bit_vector);
    assert((key >> 15) & 0x1f == (key / 32768) % 32) by (bit_vector);
}

/// Shifting a cell to its field multiplies it, and the four fields fit a
/// key.
proof fn lemma_pack_fields(a: u32, b: u32, c: u32, d: u32)
    requires
        a <= 32,
        b <= 32,
        c <= 32,
        d <= 32,
    ensures
        b << 5 == b * 32,
        c << 10 == c * 1024,
        d << 15 == d * 32768,
        a + (b << 5) + (c << 10) + (d << 15) <= u32::MAX,
{
    assert(b <= 32 ==> b << 5 == b * 32) by (bit_vector);
    assert(c <= 32 ==> c << 10 == c * 1024) by (bit_vector);
    assert(d <= 32 ==> d << 15 == d * 32768) by (bit_vector);
}

/// The tiles of a line from cell `i` on: the tile of cell `i`, if it has one,
/// before the tiles of the cells behind it.
proof fn lemma_tiles_from(line: Seq<nat>, i: int)
    requires
        0 <= i < line.len(),
    ensures
        tiles(line.skip(i)) == if line[i] == 0 {
            tiles(line.skip(i + 1))
        } else {
            seq![line[i]] + tiles(line.skip(i + 1))
        },
{
    assert(line.skip(i).skip(1) =~= line.skip(i + 1));
}

/// Two equal tiles at the front merge, and what follows is fused by itself.
proof fn lemma_fuse_merges(head: Seq<nat>, tile: nat, rest: Seq<nat>)
    ensures
        head + fuse(seq![tile] + (seq![tile] + rest)) == (head + seq![tile + 1]) + fuse(
            Seq::<nat>::empty() + rest,
        ),
{
    let whole = seq![tile] + (seq![tile] + rest);
    assert(whole.skip(2) =~= rest);
    assert(Seq::<nat>::empty() + rest =~= rest);
    assert(head + (seq![tile + 1] + fuse(rest)) =~= (head + seq![tile + 1]) + fuse(rest));
}

/// A tile at the front that differs from the next stays as it is.
proof fn lemma_fuse_keeps(head: Seq<nat>, front: nat, tile: nat, rest: Seq<nat>)
    requires
        front != tile,
    ensures
        head + fuse(seq![front] + (seq![tile] + rest)) == (head + seq![front]) + fuse(
            seq![tile] + rest,
        ),
{
    let whole = seq![front] + (seq![tile] + rest);
    assert(whole.skip(1) =~= seq![tile] + rest);
    assert(head + (seq![front] + fuse(seq![tile] + rest)) =~= (head + seq![front]) + fuse(
        seq![tile] + rest,
    ));
}

/// Slides and merges the line that `key` holds and packs the result: the
/// entry of the move table at `key`.
///
/// The cells are scanned from the highest field down. A tile merges into the
/// tile placed last if the two are equal and that tile is not itself the
/// result of a merge; otherwise it moves to the next free field.
#[verifier::rlimit(40)]
pub fn transform_key(key: u32) -> (out: u32)
    requires
        key < KEY_SPACE,
    ensures
        out == transformed(key as nat),
{
    let mut slots: [u32; 4] = [
        key & 0x1f,
        (key >> 5) & 0x1f,
        (key >> 10) & 0x1f,
        (key >> 15) & 0x1f,
    ];
    let ghost origin = unpack(key as nat);
    proof {
        lemma_unpack_fields(key);
    }
    let mut merged = false;
    // Fields not yet written: the next tile that moves goes to `free - 1`.
    let mut free: usize = 4;
    // Fields not yet scanned: the next one scanned is `todo - 1`.
    let mut todo: usize = 4;
    // The tiles that are final, and the tile placed last while it can merge.
    let ghost mut head: Seq<nat> = Seq::empty();
    let ghost mut open: Seq<nat> = Seq::empty();
    proof {
        assert(origin.skip(0) =~= origin);
        assert(open + tiles(origin) =~= tiles(origin));
        assert(head + fuse(tiles(origin)) =~= fuse(tiles(origin)));
    }
    while todo > 0
        invariant
            todo <= free <= 4,
            origin.len() == 4,
            forall|i: int| 0 <= i < 4 ==> origin[i] <= 31,
            forall|j: int| 0 <= j < todo ==> slots[j] as nat == origin[3 - j],
            forall|j: int| todo <= j < free ==> slots[j] == 0,
            forall|j: int| free <= j < 4 ==> 1 <= #[trigger] slots[j] <= 32,
            merged ==> todo < free < 4,
            open.len() == (if free < 4 && !merged {
                1nat
            } else {
                0nat
            }),
            open.len() == 1 ==> open[0] == slots[free as int] && slots[free as int] <= 31,
            head.len() + open.len() == 4 - free,
            forall|p: int| 0 <= p < head.len() ==> head[p] == slots[3 - p] as nat,
            fuse(tiles(origin)) == head + fuse(open + tiles(origin.skip(4 - todo))),
        decreases todo,
    {
        let x: usize = todo - 1;
        let ghost after = tiles(origin.skip(4 - todo + 1));
        let ghost tile = slots[x as int] as nat;
        proof {
            lemma_tiles_from(origin, 4 - todo);
        }
        if slots[x] != 0 {
            if !merged && free < 4 && slots[x] == slots[free] {
                proof {
                    assert(open =~= seq![tile]);
                    lemma_fuse_merges(head, tile, after);
                    head = head + seq![tile + 1];
                    open = Seq::empty();
                }
                slots[free] = slots[free] + 1;
                slots[x] = 0;
                merged = true;
            } else {
                proof {
                    if open.len() == 1 {
                        assert(open =~= seq![open[0]]);
                        lemma_fuse_keeps(head, open[0], tile, after);
                        head = head + seq![open[0]];
                    } else {
                        assert(open + (seq![tile] + after) =~= seq![tile] + after);
                    }
                    open = seq![tile];
                }
                if free - 1 == x {
                    free = free - 1;
                } else {
                    free = free - 1;
                    slots[free] = slots[x];
                    slots[x] = 0;
                    merged = false;
                }
            }
        }
        todo = todo - 1;
    }
    proof {
        assert(origin.skip(4) =~= Seq::<nat>::empty());
        assert(open + tiles(origin.skip(4)) =~= open);
        assert(fuse(tiles(origin)) == head + open);
        assert(cells_of(slots) =~= pad(head + open));
        lemma_pack_fields(slots[0], slots[1], slots[2], slots[3]);
    }
    slots[0] + (slots[1] << 5) + (slots[2] << 10) + (slots[3] << 15)
}

/// The move table: for every key, the key of the line after a move.
pub struct MoveTable {
    entries: Vec<u32>,
}

impl View for MoveTable {
    type V = Seq<u32>;

    closed spec fn view(&self) -> Seq<u32> {
        self.entries@
    }
}

impl MoveTable {
    #[verifier::type_invariant]
    spec fn complete(&self) -> bool {
        self.entries@.len() == KEY_SPACE && forall|key: int|
            0 <= key < KEY_SPACE ==> #[trigger] self.entries@[key] == transformed(key as nat)
    }

    /// Looks up what a move makes of `key`.
    pub fn transform(&self, key: u32) -> (out: u32)
        requires
            key < KEY_SPACE,
        ensures
            out == transformed(key as nat),
            out == self@[key as int],
    {
        proof {
            use_type_invariant(self);
        }
        self.entries[key as usize]
    }
}

/// Builds the move table, one entry for each of the 2^20 keys.
pub fn build_move_lut() -> (table: MoveTable)
    ensures
        table@.len() == KEY_SPACE,
        forall|key: int| 0 <= key < KEY_SPACE ==> #[trigger] table@[key] == transformed(key as nat),
{
    let mut entries: Vec<u32> = Vec::with_capacity(KEY_SPACE);
    let mut key: u32 = 0;
    while key < 0x10_0000
        invariant
            key <= KEY_SPACE,
            entries@.len() == key,
            forall|k: int| 0 <= k < key ==> #[trigger] entries@[k] == transformed(k as nat),
        decreases KEY_SPACE - key,
    {
        entries.push(transform_key(key));
        key = key + 1;
    }
    MoveTable { entries }
}

} // verus!
