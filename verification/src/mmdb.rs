//! The MaxMind database format, as far as it takes to tell whether a reader gets through a value:
//! whether it comes to an end of it, or to an error, in a bounded number of steps.
use vstd::prelude::*;
use vstd::slice::*;

verus! {

/// How many steps a reader may take through one value.
pub const MAX_STEPS: u32 = 100_000_000;

/// How deep a reader goes, pointers counted. It gives up before.
pub const MAX_DEPTH: usize = 256;

/// The largest number of an extended type: with the seven types before it, it stays a byte.
pub const MAX_EXTENDED: u8 = 248;

/// The type of a pointer.
pub const POINTER: u8 = 1;

/// The type of a map.
pub const MAP: u8 = 7;

/// The type of an array.
pub const ARRAY: u8 = 11;

/// The type of a truth value, which has no payload.
pub const BOOLEAN: u8 = 14;

/// The bytes between the search tree and the data.
pub const SEPARATOR: usize = 16;

/// The number that `n` bytes from position `i` on stand for, most significant first.
pub open spec fn big_endian(r: Seq<u8>, i: int, n: nat) -> int
    decreases n,
{
    if n == 0 {
        0
    } else {
        big_endian(r, i, (n - 1) as nat) * 256 + r[i + n - 1] as int
    }
}

/// What a value starts with: its type, its size, and where its payload begins.
pub struct HeaderView {
    pub kind: int,
    pub size: int,
    pub next: int,
}

/// Whether the type of the value at position `i` is an extended one whose number is no byte.
pub open spec fn overflows_at(r: Seq<u8>, i: int) -> bool {
    0 <= i && i + 1 < r.len() && r[i] < 32 && r[i + 1] > MAX_EXTENDED
}

/// The header of the value at position `i`. None where it is cut short.
pub open spec fn header_at(r: Seq<u8>, i: int) -> Option<HeaderView> {
    if i < 0 || i >= r.len() {
        None
    } else {
        let extended = r[i] < 32;
        let at = if extended {
            i + 2
        } else {
            i + 1
        };
        let low = r[i] as int % 32;
        let more = if low < 29 {
            0
        } else {
            low - 28
        };
        if at + more > r.len() {
            None
        } else {
            Some(
                HeaderView {
                    kind: if extended {
                        r[i + 1] + MAP
                    } else {
                        r[i] as int / 32
                    },
                    size: if low < 29 {
                        low
                    } else if low == 29 {
                        29 + big_endian(r, at, 1)
                    } else if low == 30 {
                        285 + big_endian(r, at, 2)
                    } else {
                        65821 + big_endian(r, at, 3)
                    },
                    next: at + more,
                },
            )
        }
    }
}

/// How many bytes a pointer takes.
pub open spec fn pointer_width(size: int) -> int {
    size / 8 % 4 + 1
}

/// Where a pointer points, by its header.
pub open spec fn pointer_target(r: Seq<u8>, h: HeaderView) -> int {
    let w = pointer_width(h.size);
    let low = big_endian(r, h.next, w as nat);
    let high = h.size % 8;
    if w == 1 {
        high * 256 + low
    } else if w == 2 {
        2048 + high * 65536 + low
    } else if w == 3 {
        526336 + high * 16777216 + low
    } else {
        low
    }
}

/// How many values a map or an array holds: a map holds a key and a value for each entry.
pub open spec fn child_count(h: HeaderView) -> nat {
    if h.kind == MAP {
        (2 * h.size) as nat
    } else {
        h.size as nat
    }
}

/// How many bytes the payload of a plain value takes. None for a type that there is not.
pub open spec fn payload(h: HeaderView) -> Option<int> {
    if h.kind == BOOLEAN {
        Some(0)
    } else if 2 <= h.kind <= 6 || 8 <= h.kind <= 10 || h.kind == 15 {
        Some(h.size)
    } else {
        None
    }
}

/// What a reader comes to: where the value ends, none where the reader reports an error on the way;
/// and how many values it takes a step through, pointers followed.
pub struct Walk {
    pub end: Option<int>,
    pub cost: nat,
}

/// Where a plain value ends. A payload that is cut short is noticed at the end of the bytes.
pub open spec fn plain_end(r: Seq<u8>, h: HeaderView, n: int) -> int {
    if h.next + n > r.len() {
        r.len() as int
    } else {
        h.next + n
    }
}

/// Read the value at position `i` through, following pointers, down to a depth of `fuel`. None where
/// the reader comes to a type that is no byte.
pub open spec fn walk(r: Seq<u8>, i: int, fuel: nat) -> Option<Walk>
    decreases fuel, 0nat,
{
    if fuel == 0 {
        Some(Walk { end: None, cost: 1 })
    } else if overflows_at(r, i) {
        None
    } else {
        match header_at(r, i) {
            None => Some(Walk { end: None, cost: 1 }),
            Some(h) => if h.kind == POINTER {
                if h.next + pointer_width(h.size) > r.len() {
                    Some(Walk { end: None, cost: 1 })
                } else {
                    match walk(r, pointer_target(r, h), (fuel - 1) as nat) {
                        None => None,
                        Some(w) => Some(
                            Walk {
                                end: match w.end {
                                    Some(_) => Some(h.next + pointer_width(h.size)),
                                    None => None,
                                },
                                cost: w.cost + 1,
                            },
                        ),
                    }
                }
            } else if h.kind == MAP || h.kind == ARRAY {
                match walk_many(r, h.next, child_count(h), (fuel - 1) as nat) {
                    None => None,
                    Some(w) => Some(Walk { end: w.end, cost: w.cost + 1 }),
                }
            } else {
                match payload(h) {
                    None => Some(Walk { end: None, cost: 1 }),
                    Some(n) => Some(Walk { end: Some(plain_end(r, h, n)), cost: 1 }),
                }
            },
        }
    }
}

/// Read `n` values through, one behind the other, as far as there is no error.
pub open spec fn walk_many(r: Seq<u8>, i: int, n: nat, fuel: nat) -> Option<Walk>
    decreases fuel, n + 1,
{
    if n == 0 {
        Some(Walk { end: Some(i), cost: 0 })
    } else {
        match walk(r, i, fuel) {
            None => None,
            Some(w) => match w.end {
                None => Some(w),
                Some(end) => after_first(w.cost, walk_many(r, end, (n - 1) as nat, fuel)),
            },
        }
    }
}

/// The walk through more values, where those before took `cost` steps.
pub open spec fn after_first(cost: nat, rest: Option<Walk>) -> Option<Walk> {
    match rest {
        None => None,
        Some(w) => Some(Walk { end: w.end, cost: cost + w.cost }),
    }
}

/// Whether a reader gets through the value at position `i`: it comes to no type that is no byte, and
/// takes no more than [`MAX_STEPS`] steps, whether it reads the value or reports an error.
pub open spec fn walkable(r: Seq<u8>, i: int) -> bool {
    walk(r, i, MAX_DEPTH as nat) matches Some(w) && w.cost <= MAX_STEPS
}

fn number_at(r: &[u8], i: usize, n: usize) -> (out: u64)
    requires
        i + n <= r@.len(),
        n <= 4,
    ensures
        out == big_endian(r@, i as int, n as nat),
        n == 1 ==> out < 0x100,
        n == 2 ==> out < 0x1_0000,
        n == 3 ==> out < 0x100_0000,
        out < 0x1_0000_0000,
{
    let len: usize = r.len();
    let mut out: u64 = 0;
    let mut k: usize = 0;
    while k < n
        invariant
            k <= n <= 4,
            i + n <= len,
            len == r@.len(),
            out == big_endian(r@, i as int, k as nat),
            k == 0 ==> out == 0,
            k == 1 ==> out < 0x100,
            k == 2 ==> out < 0x1_0000,
            k == 3 ==> out < 0x100_0000,
            k == 4 ==> out < 0x1_0000_0000,
        decreases n - k,
    {
        out = out * 256 + r[i + k] as u64;
        k += 1;
    }
    out
}

/// What a value starts with.
#[derive(Clone, Copy, Debug)]
struct Header {
    kind: u8,
    size: usize,
    next: usize,
}

impl Header {
    spec fn view(&self) -> HeaderView {
        HeaderView { kind: self.kind as int, size: self.size as int, next: self.next as int }
    }
}

fn read_header(r: &[u8], i: usize) -> (out: Option<Header>)
    requires
        i <= r@.len(),
        !overflows_at(r@, i as int),
    ensures
        match out {
            Some(h) => header_at(r@, i as int) == Some(h@) && i < h.next <= r@.len() && h.size
                < 0x200_0000,
            None => header_at(r@, i as int) is None,
        },
{
    let len: usize = r.len();
    if i >= len {
        return None;
    }
    let ctrl: u8 = r[i];
    let extended = ctrl < 32;
    let skip: usize = if extended {
        2
    } else {
        1
    };
    if skip > len - i {
        return None;
    }
    let at: usize = i + skip;
    let low: usize = (ctrl % 32) as usize;
    let more: usize = if low < 29 {
        0
    } else {
        low - 28
    };
    if more > len - at {
        return None;
    }
    let kind: u8 = if extended {
        r[i + 1] + MAP
    } else {
        ctrl / 32
    };
    let extra: usize = number_at(r, at, more) as usize;
    let size: usize = if low < 29 {
        low
    } else if low == 29 {
        29 + extra
    } else if low == 30 {
        285 + extra
    } else {
        65821 + extra
    };
    Some(Header { kind, size, next: at + more })
}

fn read_target(r: &[u8], h: Header) -> (out: u64)
    requires
        h.next + pointer_width(h.size as int) <= r@.len(),
    ensures
        out == pointer_target(r@, h@),
{
    let w: usize = h.size / 8 % 4 + 1;
    let low: u64 = number_at(r, h.next, w);
    let high: u64 = (h.size % 8) as u64;
    if w == 1 {
        high * 256 + low
    } else if w == 2 {
        2048 + high * 65536 + low
    } else if w == 3 {
        526336 + high * 16777216 + low
    } else {
        low
    }
}

/// What a walk came to.
#[derive(Clone, Copy, Debug)]
struct Walked {
    end: Option<usize>,
    cost: u32,
}

impl Walked {
    spec fn view(&self) -> Walk {
        Walk {
            end: match self.end {
                Some(e) => Some(e as int),
                None => None,
            },
            cost: self.cost as nat,
        }
    }
}

/// Whether an outcome is the walk that was to be made, or none where that is not possible in
/// `budget` steps.
spec fn is_walk(out: Option<Walked>, budget: u32, expected: Option<Walk>) -> bool {
    match out {
        Some(w) => expected == Some(w@) && w.cost <= budget,
        None => expected is None || expected->0.cost > budget,
    }
}

/// A step that ends in an error.
fn stops(budget: u32) -> (out: Option<Walked>)
    ensures
        is_walk(out, budget, Some(Walk { end: None, cost: 1 })),
        out matches Some(w) ==> w.end is None,
{
    if budget == 0 {
        None
    } else {
        Some(Walked { end: None, cost: 1 })
    }
}

/// Walk through the value at position `i`, in no more than `budget` steps.
fn walk_value(r: &[u8], i: usize, depth: usize, budget: u32) -> (out: Option<Walked>)
    requires
        i <= r@.len(),
    ensures
        is_walk(out, budget, walk(r@, i as int, depth as nat)),
        out matches Some(w) ==> (w.end matches Some(e) ==> e <= r@.len()),
    decreases depth, 0nat,
{
    if depth == 0 {
        return stops(budget);
    }
    let len: usize = r.len();
    if i < len && 1 < len - i && r[i] < 32 && r[i + 1] > MAX_EXTENDED {
        return None;
    }
    let h = match read_header(r, i) {
        Some(h) => h,
        None => {
            return stops(budget);
        },
    };
    if h.kind == POINTER {
        let w: usize = h.size / 8 % 4 + 1;
        if w > len - h.next {
            return stops(budget);
        }
        let target: u64 = read_target(r, h);
        if budget == 0 {
            return None;
        }
        proof {
            lemma_walk_behind(r@, target as int, (depth - 1) as nat);
        }
        let t: usize = if target < len as u64 {
            target as usize
        } else {
            len
        };
        match walk_value(r, t, depth - 1, budget - 1) {
            None => None,
            Some(a) => Some(
                Walked {
                    end: match a.end {
                        Some(_) => Some(h.next + w),
                        None => None,
                    },
                    cost: a.cost + 1,
                },
            ),
        }
    } else if h.kind == MAP || h.kind == ARRAY {
        let n: usize = if h.kind == MAP {
            2 * h.size
        } else {
            h.size
        };
        if budget == 0 {
            return None;
        }
        match walk_children(r, h.next, n, depth - 1, budget - 1) {
            None => None,
            Some(a) => Some(Walked { end: a.end, cost: a.cost + 1 }),
        }
    } else if h.kind == BOOLEAN {
        if budget == 0 {
            None
        } else {
            Some(Walked { end: Some(h.next), cost: 1 })
        }
    } else if h.kind == 0 || h.kind > 15 || h.kind == 12 || h.kind == 13 {
        stops(budget)
    } else {
        let end: usize = if h.size > len - h.next {
            len
        } else {
            h.next + h.size
        };
        if budget == 0 {
            None
        } else {
            Some(Walked { end: Some(end), cost: 1 })
        }
    }
}

/// A pointer behind the end leads to nothing, wherever it leads.
proof fn lemma_walk_behind(r: Seq<u8>, t: int, fuel: nat)
    ensures
        t >= r.len() ==> walk(r, t, fuel) == walk(r, r.len() as int, fuel),
{
}

fn walk_children(r: &[u8], i: usize, n: usize, depth: usize, budget: u32) -> (out: Option<Walked>)
    requires
        i <= r@.len(),
    ensures
        is_walk(out, budget, walk_many(r@, i as int, n as nat, depth as nat)),
        out matches Some(w) ==> (w.end matches Some(e) ==> e <= r@.len()),
    decreases depth, 1nat,
{
    let mut at: usize = i;
    let mut left: usize = n;
    let mut total: u32 = 0;
    let ghost whole = walk_many(r@, i as int, n as nat, depth as nat);
    while left > 0
        invariant
            at <= r@.len(),
            total <= budget,
            whole == walk_many(r@, i as int, n as nat, depth as nat),
            whole == after_first(
                total as nat,
                walk_many(r@, at as int, left as nat, depth as nat),
            ),
        decreases left,
    {
        match walk_value(r, at, depth, budget - total) {
            None => {
                return None;
            },
            Some(w) => {
                total += w.cost;
                match w.end {
                    None => {
                        return Some(Walked { end: None, cost: total });
                    },
                    Some(e) => {
                        at = e;
                    },
                }
                left -= 1;
            },
        }
    }
    Some(Walked { end: Some(at), cost: total })
}

/// Whether a reader gets through the value at position `i`.
pub fn is_walkable(r: &[u8], i: usize) -> (yes: bool)
    requires
        i <= r@.len(),
    ensures
        yes == walkable(r@, i as int),
{
    walk_value(r, i, MAX_DEPTH, MAX_STEPS).is_some()
}

/// What stands before the metadata.
pub open spec fn marker() -> Seq<u8> {
    seq![0xab, 0xcd, 0xef, 77, 97, 120, 77, 105, 110, 100, 46, 99, 111, 109]
}

/// The last marker at position `i` or before it.
pub open spec fn last_marker(db: Seq<u8>, i: int) -> Option<int>
    decreases i + 1,
{
    if i < 0 {
        None
    } else if i + 14 <= db.len() && db.subrange(i, i + 14) == marker() {
        Some(i)
    } else {
        last_marker(db, i - 1)
    }
}

/// Where the marker of a database stands, behind which its metadata begins.
pub open spec fn marker_at(db: Seq<u8>) -> Option<int> {
    last_marker(db, db.len() - 14)
}

fn is_marker(db: &[u8], i: usize) -> (yes: bool)
    requires
        i + 14 <= db@.len(),
    ensures
        yes == (db@.subrange(i as int, i + 14) == marker()),
{
    let yes = db[i] == 0xab && db[i + 1] == 0xcd && db[i + 2] == 0xef && db[i + 3] == 77 && db[i
        + 4] == 97 && db[i + 5] == 120 && db[i + 6] == 77 && db[i + 7] == 105 && db[i + 8] == 110
        && db[i + 9] == 100 && db[i + 10] == 46 && db[i + 11] == 99 && db[i + 12] == 111 && db[i
        + 13] == 109;
    let ghost here = db@.subrange(i as int, i + 14);
    proof {
        assert forall|k: int| 0 <= k < 14 implies #[trigger] here[k] == db@[i + k] by {}
        if yes {
            assert(here =~= marker());
        } else if here == marker() {
            assert(here[0] == marker()[0] && here[1] == marker()[1] && here[2] == marker()[2]
                && here[3] == marker()[3] && here[4] == marker()[4] && here[5] == marker()[5]
                && here[6] == marker()[6] && here[7] == marker()[7] && here[8] == marker()[8]
                && here[9] == marker()[9] && here[10] == marker()[10] && here[11] == marker()[11]
                && here[12] == marker()[12] && here[13] == marker()[13]);
        }
    }
    yes
}

fn find_marker(db: &[u8]) -> (out: Option<usize>)
    ensures
        match out {
            Some(m) => marker_at(db@) == Some(m as int) && m + 14 <= db@.len(),
            None => marker_at(db@) is None,
        },
{
    let len: usize = db.len();
    if len < 14 {
        return None;
    }
    let mut n: usize = len - 13;
    while n > 0
        invariant
            n + 13 <= len,
            len == db@.len(),
            marker_at(db@) == last_marker(db@, n - 1),
        decreases n,
    {
        if is_marker(db, n - 1) {
            return Some(n - 1);
        }
        n -= 1;
    }
    None
}

/// The metadata of a database with its marker at `m`.
pub open spec fn metadata(db: Seq<u8>, m: int) -> Seq<u8> {
    db.skip(m + 14)
}

/// Whether a reader gets through the metadata of a database. One without metadata is not looked
/// into any further.
pub open spec fn metadata_is_walkable(db: Seq<u8>) -> bool {
    marker_at(db) matches Some(m) ==> walkable(metadata(db, m), 0)
}

/// Whether a reader gets through the metadata of a database.
pub fn check_metadata(db: &[u8]) -> (yes: bool)
    ensures
        yes == metadata_is_walkable(db@),
{
    match find_marker(db) {
        None => true,
        Some(m) => {
            let len: usize = db.len();
            let r = slice_subrange(db, m + 14, len);
            assert(r@ =~= metadata(db@, m as int));
            is_walkable(r, 0)
        },
    }
}

/// Where the data of a database begins, by the number of nodes of its search tree and the bits of a
/// record.
pub open spec fn data_start(nodes: u32, record_size: u16) -> int {
    nodes * record_size / 4 + SEPARATOR
}

/// Whether a reader gets through the record at an offset into the data of a database, which stands
/// between the search tree and the marker.
pub open spec fn record_is_walkable(db: Seq<u8>, nodes: u32, record_size: u16, offset: usize) -> bool {
    let start = data_start(nodes, record_size);
    marker_at(db) matches Some(m) && start + offset <= m <= db.len() && walkable(
        db.subrange(start, m),
        offset as int,
    )
}

/// Whether a reader gets through the record at an offset into the data of a database.
pub fn check_record(db: &[u8], nodes: u32, record_size: u16, offset: usize) -> (yes: bool)
    ensures
        yes == record_is_walkable(db@, nodes, record_size, offset),
{
    let m: usize = match find_marker(db) {
        Some(m) => m,
        None => {
            return false;
        },
    };
    assert(nodes * record_size <= 0xffff_ffff * 0xffff) by (nonlinear_arith)
        requires
            nodes <= 0xffff_ffff,
            record_size <= 0xffff,
    ;
    let start: u64 = nodes as u64 * record_size as u64 / 4 + SEPARATOR as u64;
    if start > m as u64 || offset as u64 > m as u64 - start {
        return false;
    }
    let r = slice_subrange(db, start as usize, m);
    is_walkable(r, offset)
}

/// The marker of a database is the last place where the bytes `ab cd ef` and the text `MaxMind.com`
/// stand, and there is none where they stand nowhere.
pub proof fn law_marker_is_the_last_of_its_kind(db: Seq<u8>, m: int)
    requires
        -1 <= m,
        0 <= m ==> m + 14 <= db.len() && db.subrange(m, m + 14) == seq![
            171u8, 205, 239, 77, 97, 120, 77, 105, 110, 100, 46, 99, 111, 109,
        ],
        forall|j: int|
            m < j && j + 14 <= db.len() ==> #[trigger] db.subrange(j, j + 14) != seq![
                171u8, 205, 239, 77, 97, 120, 77, 105, 110, 100, 46, 99, 111, 109,
            ],
    ensures
        0 <= m ==> marker_at(db) == Some(m),
        m == -1 ==> marker_at(db) is None,
{
    lemma_last_marker(db, m, db.len() - 14);
}

proof fn lemma_last_marker(db: Seq<u8>, m: int, i: int)
    requires
        -1 <= m,
        i + 14 <= db.len(),
        0 <= m ==> m <= i && db.subrange(m, m + 14) == marker(),
        forall|j: int| m < j && j + 14 <= db.len() ==> #[trigger] db.subrange(j, j + 14) != marker(),
    ensures
        0 <= m ==> last_marker(db, i) == Some(m),
        m == -1 ==> last_marker(db, i) is None,
    decreases i + 1,
{
    if i >= 0 && i != m {
        assert(db.subrange(i, i + 14) != marker());
        lemma_last_marker(db, m, i - 1);
    }
}

/// Bytes are read most significant first.
pub proof fn law_numbers_are_big_endian(r: Seq<u8>, i: int)
    ensures
        big_endian(r, i, 1) == r[i],
        big_endian(r, i, 2) == 256 * r[i] + r[i + 1],
        big_endian(r, i, 3) == 65536 * r[i] + 256 * r[i + 1] + r[i + 2],
        big_endian(r, i, 4) == 16777216 * r[i] + 65536 * r[i + 1] + 256 * r[i + 2] + r[i + 3],
{
    reveal_with_fuel(big_endian, 5);
}

/// A plain value of one of the first types, whose size stands in its first byte or in up to three
/// bytes behind, takes one step and ends behind its payload.
pub proof fn law_plain_value_ends_behind_its_payload(r: Seq<u8>, i: int, kind: int, n: int, fuel: nat)
    requires
        fuel > 0,
        0 <= i < r.len(),
        2 <= kind <= 6,
        0 <= n < 32,
        r[i] == 32 * kind + n,
    ensures
        n < 29 && i + 1 + n <= r.len() ==> walk(r, i, fuel) == Some(
            Walk { end: Some(i + 1 + n), cost: 1 },
        ),
        n == 29 && i + 2 <= r.len() && i + 31 + r[i + 1] <= r.len() ==> walk(r, i, fuel) == Some(
            Walk { end: Some(i + 31 + r[i + 1]), cost: 1 },
        ),
        n == 30 && i + 3 <= r.len() && i + 288 + 256 * r[i + 1] + r[i + 2] <= r.len() ==> walk(
            r,
            i,
            fuel,
        ) == Some(Walk { end: Some(i + 288 + 256 * r[i + 1] + r[i + 2]), cost: 1 }),
        n == 31 && i + 4 <= r.len() && i + 65825 + 65536 * r[i + 1] + 256 * r[i + 2] + r[i + 3]
            <= r.len() ==> walk(r, i, fuel) == Some(
            Walk {
                end: Some(i + 65825 + 65536 * r[i + 1] + 256 * r[i + 2] + r[i + 3]),
                cost: 1,
            },
        ),
{
    law_numbers_are_big_endian(r, i + 1);
}

/// A value of a later type names its type in a second byte. A truth value has no payload, and a type
/// that there is not is an error.
pub proof fn law_later_types_stand_in_a_second_byte(r: Seq<u8>, i: int, n: int, fuel: nat)
    requires
        fuel > 0,
        0 <= i,
        i + 2 + n <= r.len(),
        0 <= n < 29,
        r[i] == n,
    ensures
        1 <= r[i + 1] <= 3 || r[i + 1] == 8 ==> walk(r, i, fuel) == Some(
            Walk { end: Some(i + 2 + n), cost: 1 },
        ),
        r[i + 1] == 7 ==> walk(r, i, fuel) == Some(Walk { end: Some(i + 2), cost: 1 }),
        r[i + 1] == 5 || r[i + 1] == 6 || 9 <= r[i + 1] <= 248 ==> walk(r, i, fuel) == Some(
            Walk { end: None, cost: 1 },
        ),
        r[i + 1] > 248 ==> walk(r, i, fuel) is None,
{
}

/// A map is read as a key and a value for each entry, an array as its values, one step more than
/// those take and one level deeper.
pub proof fn law_collections_hold_their_values(r: Seq<u8>, i: int, n: int, fuel: nat, inner: Walk)
    requires
        fuel > 0,
        0 <= i < r.len(),
        0 <= n < 29,
    ensures
        r[i] == 224 + n && walk_many(r, i + 1, (2 * n) as nat, (fuel - 1) as nat) == Some(inner)
            ==> walk(r, i, fuel) == Some(Walk { end: inner.end, cost: inner.cost + 1 }),
        r[i] == n && i + 1 < r.len() && r[i + 1] == 4 && walk_many(
            r,
            i + 2,
            n as nat,
            (fuel - 1) as nat,
        ) == Some(inner) ==> walk(r, i, fuel) == Some(Walk { end: inner.end, cost: inner.cost + 1 }),
{
}

/// Values are read one behind the other: the next where the one before ends, with the steps of all
/// of them; the first error ends the reading.
pub proof fn law_values_stand_one_behind_the_other(r: Seq<u8>, i: int, n: nat, fuel: nat, first: Walk)
    requires
        walk(r, i, fuel) == Some(first),
    ensures
        walk_many(r, i, 0, fuel) == Some(Walk { end: Some(i), cost: 0 }),
        first.end is None ==> walk_many(r, i, n + 1, fuel) == Some(first),
        first.end matches Some(end) ==> forall|rest: Walk|
            #[trigger] walk_many(r, end, n, fuel) == Some(rest) ==> walk_many(r, i, n + 1, fuel) == Some(
                Walk { end: rest.end, cost: first.cost + rest.cost },
            ),
{
    reveal_with_fuel(walk_many, 2);
}

/// A pointer ends behind its own bytes. What it points to is read through, one step more and one
/// level deeper; its place is in the pointer's bytes, and the narrower pointers count on from each
/// other. The widest leaves the low bits of its first byte unused.
pub proof fn law_pointer_leads_to_its_value(r: Seq<u8>, i: int, w: int, high: int, to: Walk, fuel: nat)
    requires
        fuel > 0,
        0 <= i,
        1 <= w <= 4,
        0 <= high < 8,
        i + 1 + w <= r.len(),
        r[i] == 32 + 8 * (w - 1) + high,
        walk(
            r,
            if w == 1 {
                256 * high + r[i + 1]
            } else if w == 2 {
                2048 + 65536 * high + 256 * r[i + 1] + r[i + 2]
            } else if w == 3 {
                526336 + 16777216 * high + 65536 * r[i + 1] + 256 * r[i + 2] + r[i + 3]
            } else {
                16777216 * r[i + 1] + 65536 * r[i + 2] + 256 * r[i + 3] + r[i + 4]
            },
            (fuel - 1) as nat,
        ) == Some(to),
        8 * (w - 1) + high < 29,
    ensures
        walk(r, i, fuel) == Some(
            Walk {
                end: if to.end is Some {
                    Some(i + 1 + w)
                } else {
                    None
                },
                cost: to.cost + 1,
            },
        ),
{
    law_numbers_are_big_endian(r, i + 1);
    let h = header_at(r, i)->0;
    assert(h.size == 8 * (w - 1) + high && h.next == i + 1 && h.kind == 1);
    assert(pointer_width(h.size) == w);
    assert(h.size % 8 == high);
}

/// A reader gets through a value where it takes at most a hundred million steps and comes to no type
/// that is no byte; it gives up 256 levels down.
pub proof fn law_reader_is_bounded(r: Seq<u8>, i: int)
    ensures
        walkable(r, i) <==> walk(r, i, 256) is Some && walk(r, i, 256)->0.cost <= 100000000,
        walk(r, i, 0) == Some(Walk { end: None, cost: 1 }),
{
}

/// The data of a database begins sixteen bytes behind its search tree, each node of which holds two
/// records.
pub proof fn law_data_stands_behind_the_tree(nodes: u32)
    ensures
        data_start(nodes, 24) == 6 * nodes + 16,
        data_start(nodes, 28) == 7 * nodes + 16,
        data_start(nodes, 32) == 8 * nodes + 16,
{
    assert(nodes * 24 / 4 == 6 * nodes) by (nonlinear_arith);
    assert(nodes * 28 / 4 == 7 * nodes) by (nonlinear_arith);
    assert(nodes * 32 / 4 == 8 * nodes) by (nonlinear_arith);
}

/// A database is looked into behind its marker for its metadata, and between its tree and its marker
/// for a record; without a marker it has neither.
pub proof fn law_database_is_parted_by_its_marker(
    db: Seq<u8>,
    m: int,
    nodes: u32,
    record_size: u16,
    offset: usize,
)
    requires
        marker_at(db) == Some(m),
    ensures
        0 <= m && m + 14 <= db.len(),
        metadata_is_walkable(db) == walkable(db.subrange(m + 14, db.len() as int), 0),
        record_is_walkable(db, nodes, record_size, offset) == (data_start(nodes, record_size)
            + offset <= m && walkable(
            db.subrange(data_start(nodes, record_size), m),
            offset as int,
        )),
{
    lemma_marker_within(db, db.len() - 14);
    assert(db.skip(m + 14) =~= db.subrange(m + 14, db.len() as int));
}

proof fn lemma_marker_within(db: Seq<u8>, i: int)
    requires
        i + 14 <= db.len(),
    ensures
        last_marker(db, i) matches Some(m) ==> 0 <= m <= i,
    decreases i + 1,
{
    if i >= 0 {
        lemma_marker_within(db, i - 1);
    }
}

} // verus!
