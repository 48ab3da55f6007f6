//! What is known of the host: cores and memory, read from the system's tables.
use crate::scan;
use crate::scan::{has_prefix, parse_number, position, split_line, trim, word};
use crate::text;
use vstd::prelude::*;
use vstd::slice::slice_subrange;

verus! {

/// A description of the host.
#[derive(Debug, Clone, Copy)]
pub struct HardwareProfile {
    /// Cores as the scheduler counts them.
    pub logical_cores: usize,
    /// Cores as the hardware counts them.
    pub physical_cores: usize,
    /// Bytes of memory; zero where it is unknown.
    pub ram_bytes: u64,
    pub os: &'static str,
    pub arch: &'static str,
}

/// What stands between the first and the second colon, without white space
/// round it.
pub open spec fn field_value(s: Seq<u8>) -> Option<Seq<u8>> {
    let n = scan::find(s, 58);
    if n < s.len() {
        let rest = s.skip((n + 1) as int);
        Some(scan::trimmed(rest.take(scan::find(rest, 58) as int)))
    } else {
        None
    }
}

/// The value of a field.
fn value_of(s: &[u8]) -> (r: Option<Vec<u8>>)
    ensures
        name(r) == field_value(s@),
{
    let n: usize = position(s, 58);
    let len: usize = s.len();
    if n < len {
        let rest: &[u8] = slice_subrange(s, n + 1, len);
        assert(rest@ =~= s@.skip(n + 1));
        let m: usize = position(rest, 58);
        let part: &[u8] = slice_subrange(rest, 0, m);
        assert(part@ =~= rest@.take(m as int));
        Some(copy_bytes(trim(part)))
    } else {
        None
    }
}

fn copy_bytes(s: &[u8]) -> (r: Vec<u8>)
    ensures
        r@ == s@,
{
    let mut r: Vec<u8> = Vec::new();
    r.extend_from_slice(s);
    assert(r@ =~= s@);
    r
}

fn same_bytes(a: &[u8], b: &[u8]) -> (r: bool)
    ensures
        r == (a@ == b@),
{
    if a.len() != b.len() {
        return false;
    }
    let mut i: usize = 0;
    while i < a.len() && a[i] == b[i]
        invariant
            i <= a@.len() == b@.len(),
            forall|j: int| 0 <= j < i ==> a@[j] == b@[j],
        decreases a@.len() - i,
    {
        i = i + 1;
    }
    proof {
        if i == a@.len() {
            assert(a@ =~= b@);
        } else {
            assert(a@[i as int] != b@[i as int]);
        }
    }
    i == a.len()
}

/// What has been read of a table of processors.
pub struct CoreScan {
    /// Package of the processor at hand.
    pub package: Option<Seq<u8>>,
    /// Core of the processor at hand.
    pub core: Option<Seq<u8>>,
    /// Packages and cores of the processors before it.
    pub seen: Set<(Seq<u8>, Seq<u8>)>,
}

/// Reading one more line.  An empty line ends the entry of a processor.
pub open spec fn scan_line(state: CoreScan, line: Seq<u8>) -> CoreScan {
    if scan::begins_with(line, package_key()) {
        CoreScan { package: field_value(line.skip(11)), ..state }
    } else if scan::begins_with(line, core_key()) {
        CoreScan { core: field_value(line.skip(7)), ..state }
    } else if line.len() == 0 {
        match (state.package, state.core) {
            (Some(p), Some(c)) => CoreScan {
                package: None,
                core: None,
                seen: state.seen.insert((p, c)),
            },
            _ => CoreScan { package: None, core: None, seen: state.seen },
        }
    } else {
        state
    }
}

/// Reading lines.
pub open spec fn scan_lines(state: CoreScan, lines: Seq<Seq<u8>>) -> CoreScan
    decreases lines.len(),
{
    if lines.len() == 0 {
        state
    } else {
        scan_lines(scan_line(state, lines[0]), lines.skip(1))
    }
}

/// Nothing has been read.
pub open spec fn scan_start() -> CoreScan {
    CoreScan { package: None, core: None, seen: Set::empty() }
}

/// The distinct cores of a table of processors.
pub open spec fn cores_listed(table: Seq<u8>) -> Set<(Seq<u8>, Seq<u8>)> {
    scan_lines(scan_start(), scan::lines(table)).seen
}

/// `physical id`.
pub open spec fn package_key() -> Seq<u8> {
    seq![112, 104, 121, 115, 105, 99, 97, 108, 32, 105, 100]
}

/// `core id`.
pub open spec fn core_key() -> Seq<u8> {
    seq![99, 111, 114, 101, 32, 105, 100]
}

/// A name, as a sequence of bytes.
pub open spec fn name(v: Option<Vec<u8>>) -> Option<Seq<u8>> {
    match v {
        Some(b) => Some(b@),
        None => None,
    }
}

/// The pairs of a list.
pub open spec fn pairs(v: Seq<(Vec<u8>, Vec<u8>)>) -> Seq<(Seq<u8>, Seq<u8>)> {
    v.map_values(|p: (Vec<u8>, Vec<u8>)| (p.0@, p.1@))
}

/// Add a pair to a list, unless it is there.
fn insert_pair(seen: &mut Vec<(Vec<u8>, Vec<u8>)>, p: Vec<u8>, c: Vec<u8>)
    requires
        pairs(old(seen)@).no_duplicates(),
    ensures
        pairs(final(seen)@).no_duplicates(),
        pairs(final(seen)@).to_set() == pairs(old(seen)@).to_set().insert((p@, c@)),
{
    let ghost before = pairs(seen@);
    let ghost item = (p@, c@);
    let mut i: usize = 0;
    while i < seen.len() && !(same_bytes(&seen[i].0, &p) && same_bytes(&seen[i].1, &c))
        invariant
            i <= seen@.len(),
            before == pairs(seen@),
            item == (p@, c@),
            forall|j: int| 0 <= j < i ==> before[j] != item,
        decreases seen@.len() - i,
    {
        i = i + 1;
    }
    if i < seen.len() {
        proof {
            assert(before[i as int] == item);
            assert(before.to_set() =~= before.to_set().insert(item));
        }
    } else {
        seen.push((p, c));
        proof {
            let after = pairs(seen@);
            assert(after =~= before.push(item));
            assert forall|x: (Seq<u8>, Seq<u8>)| after.to_set().contains(x)
                <==> before.to_set().insert(item).contains(x) by {
                if before.contains(x) {
                    let j = choose|j: int| 0 <= j < before.len() && before[j] == x;
                    assert(after[j] == x);
                }
                assert(after[before.len() as int] == item);
            }
            assert(after.to_set() =~= before.to_set().insert(item));
        }
    }
}

/// Count the distinct cores in a table of processors, or fall back on the
/// number of logical cores where it lists none.
pub fn physical_cores(table: &[u8], logical_cores: usize) -> (n: usize)
    ensures
        cores_listed(table@).len() == 0 ==> n == logical_cores,
        cores_listed(table@).len() > 0 ==> n == cores_listed(table@).len(),
{
    let package_text: [u8; 11] = [112, 104, 121, 115, 105, 99, 97, 108, 32, 105, 100];
    let core_text: [u8; 7] = [99, 111, 114, 101, 32, 105, 100];
    let mut package: Option<Vec<u8>> = None;
    let mut core: Option<Vec<u8>> = None;
    let mut seen: Vec<(Vec<u8>, Vec<u8>)> = Vec::new();
    let mut rest: &[u8] = table;
    proof {
        assert(pairs(seen@).to_set() =~= Set::<(Seq<u8>, Seq<u8>)>::empty());
        assert(package_text@ =~= package_key());
        assert(core_text@ =~= core_key());
    }
    while rest.len() > 0
        invariant
            package_text@ == package_key(),
            core_text@ == core_key(),
            pairs(seen@).no_duplicates(),
            scan_lines(
                CoreScan {
                    package: name(package),
                    core: name(core),
                    seen: pairs(seen@).to_set(),
                },
                scan::lines(rest@),
            ).seen == cores_listed(table@),
        decreases rest@.len(),
    {
        let (line, after) = split_line(rest);
        proof {
            let all = scan::lines(rest@);
            assert(all[0] == line@);
            assert(all.skip(1) =~= scan::lines(after@));
        }
        let len: usize = line.len();
        if has_prefix(line, &package_text) {
            let value: &[u8] = slice_subrange(line, 11, len);
            assert(value@ =~= line@.skip(11));
            package = value_of(value);
        } else if has_prefix(line, &core_text) {
            let value: &[u8] = slice_subrange(line, 7, len);
            assert(value@ =~= line@.skip(7));
            core = value_of(value);
        } else if len == 0 {
            match (package, core) {
                (Some(p), Some(c)) => {
                    insert_pair(&mut seen, p, c);
                },
                _ => {},
            }
            package = None;
            core = None;
        }
        rest = after;
    }
    proof {
        pairs(seen@).unique_seq_to_set();
    }
    if seen.len() == 0 {
        logical_cores
    } else {
        seen.len()
    }
}

/// The first number after `key` at the front of a line, in bytes where the table
/// gives kibibytes.  Lines whose number does not parse are passed over.
pub open spec fn kibibytes_listed(lines: Seq<Seq<u8>>, key: Seq<u8>) -> Option<u64>
    decreases lines.len(),
{
    if lines.len() == 0 {
        None
    } else if scan::begins_with(lines[0], key) && scan::parsed(
        scan::first_word(lines[0].skip(key.len() as int)),
    ) is Some {
        scan::parsed(scan::first_word(lines[0].skip(key.len() as int)))
    } else {
        kibibytes_listed(lines.skip(1), key)
    }
}

/// Find a number of kibibytes in a table.
pub fn find_kibibytes(table: &[u8], key: &[u8]) -> (r: Option<u64>)
    ensures
        r == kibibytes_listed(scan::lines(table@), key@),
{
    let mut rest: &[u8] = table;
    while rest.len() > 0
        invariant
            kibibytes_listed(scan::lines(rest@), key@) == kibibytes_listed(
                scan::lines(table@),
                key@,
            ),
        decreases rest@.len(),
    {
        let (line, after) = split_line(rest);
        proof {
            let all = scan::lines(rest@);
            assert(all[0] == line@);
            assert(all.skip(1) =~= scan::lines(after@));
        }
        if has_prefix(line, key) {
            let value: &[u8] = slice_subrange(line, key.len(), line.len());
            assert(value@ =~= line@.skip(key@.len() as int));
            match parse_number(word(value)) {
                Some(n) => {
                    return Some(n);
                },
                None => {},
            }
        }
        rest = after;
    }
    None
}

/// `MemTotal:`.
pub open spec fn memory_key() -> Seq<u8> {
    seq![77, 101, 109, 84, 111, 116, 97, 108, 58]
}

/// The bytes of memory that a memory table gives, or zero.
pub fn ram_bytes(table: &[u8]) -> (n: u64)
    ensures
        n == match kibibytes_listed(scan::lines(table@), memory_key()) {
            Some(k) => if k * 1024 <= u64::MAX {
                k * 1024
            } else {
                u64::MAX as int
            },
            None => 0,
        },
{
    let key: [u8; 9] = [77, 101, 109, 84, 111, 116, 97, 108, 58];
    assert(key@ =~= memory_key());
    match find_kibibytes(table, &key) {
        Some(k) => if k <= 0xffff_ffff_ffff_ffff / 1024 {
            k * 1024
        } else {
            0xffff_ffff_ffff_ffff
        },
        None => 0,
    }
}

/// The keys of the tables, letter for letter.
pub proof fn law_keys()
    ensures
        package_key().len() == 11,
        forall|i: int| 0 <= i < 11 ==> #[trigger] package_key()[i] as char == "physical id"@[i],
        core_key().len() == 7,
        forall|i: int| 0 <= i < 7 ==> #[trigger] core_key()[i] as char == "core id"@[i],
        memory_key().len() == 9,
        forall|i: int| 0 <= i < 9 ==> #[trigger] memory_key()[i] as char == "MemTotal:"@[i],
{
    reveal_strlit("physical id");
    reveal_strlit("core id");
    reveal_strlit("MemTotal:");
}

/// The value of a field is what follows its first colon, up to a second one,
/// without white space round it.
pub proof fn law_field_value(x: Seq<u8>, y: Seq<u8>, z: Seq<u8>)
    requires
        forall|i: int| 0 <= i < x.len() ==> #[trigger] x[i] != 58,
        forall|i: int| 0 <= i < y.len() ==> #[trigger] y[i] != 58,
    ensures
        field_value(x) is None,
        field_value(x + seq![58u8] + y) == Some(scan::trimmed(y)),
        field_value(x + seq![58u8] + y + seq![58u8] + z) == Some(scan::trimmed(y)),
{
    scan::lemma_find_unique(x, 58, x.len());
    let s = x + seq![58u8] + y;
    scan::lemma_find_unique(s, 58, x.len());
    assert(s.skip(x.len() as int + 1) =~= y);
    scan::lemma_find_unique(y, 58, y.len());
    assert(y.take(y.len() as int) =~= y);
    let t = x + seq![58u8] + y + seq![58u8] + z;
    scan::lemma_find_unique(t, 58, x.len());
    let u = t.skip(x.len() as int + 1);
    assert(u =~= y + seq![58u8] + z);
    scan::lemma_find_unique(u, 58, y.len());
    assert(u.take(y.len() as int) =~= y);
}

/// An entry of a table of processors that gives a package and a core adds this pair
/// to the cores seen, and one that lacks either adds nothing; any other line
/// changes nothing.
pub proof fn law_core_entry(
    seen: Set<(Seq<u8>, Seq<u8>)>,
    p: Seq<u8>,
    c: Seq<u8>,
    other: Seq<u8>,
    rest: Seq<Seq<u8>>,
)
    requires
        forall|i: int| 0 <= i < p.len() ==> #[trigger] p[i] != 58,
        forall|i: int| 0 <= i < c.len() ==> #[trigger] c[i] != 58,
        other.len() > 0,
        !scan::begins_with(other, package_key()),
        !scan::begins_with(other, core_key()),
    ensures
        ({
            let start = CoreScan { package: None, core: None, seen };
            let package = package_key() + seq![9u8, 58u8] + p;
            let core = core_key() + seq![9u8, 9u8, 58u8] + c;
            let end = Seq::<u8>::empty();
            let found = CoreScan {
                package: None,
                core: None,
                seen: seen.insert((scan::trimmed(p), scan::trimmed(c))),
            };
            &&& scan_lines(start, seq![package, other, core, end] + rest) == scan_lines(found, rest)
            &&& scan_lines(start, seq![package, end] + rest) == scan_lines(start, rest)
            &&& scan_lines(start, seq![core, end] + rest) == scan_lines(start, rest)
            &&& scan_lines(start, seq![other] + rest) == scan_lines(start, rest)
        }),
{
    let start = CoreScan { package: None, core: None, seen };
    let package = package_key() + seq![9u8, 58u8] + p;
    let core = core_key() + seq![9u8, 9u8, 58u8] + c;
    let end = Seq::<u8>::empty();
    let x = seq![9u8];
    let y = seq![9u8, 9u8];
    law_field_value(x, p, p);
    law_field_value(y, c, c);
    assert(package.take(11) =~= package_key());
    assert(package.skip(11) =~= x + seq![58u8] + p);
    assert(core.take(7) =~= core_key());
    assert(core.skip(7) =~= y + seq![58u8] + c);
    assert(!scan::begins_with(core, package_key())) by {
        scan::law_begins_with(core, package_key());
        assert(core[0] == 99 && package_key()[0] == 112);
    }
    let a = CoreScan { package: Some(scan::trimmed(p)), core: None, seen };
    let b = CoreScan { package: None, core: Some(scan::trimmed(c)), seen };
    let ab = CoreScan { core: Some(scan::trimmed(c)), ..a };
    assert(scan_line(start, package) == a);
    assert(scan_line(start, core) == b);
    assert(scan_line(a, other) == a);
    assert(scan_line(a, core) == ab);
    let all = seq![package, other, core, end] + rest;
    assert(all.skip(1) =~= seq![other, core, end] + rest);
    let all1 = seq![other, core, end] + rest;
    assert(all1.skip(1) =~= seq![core, end] + rest);
    let all2 = seq![core, end] + rest;
    assert(all2.skip(1) =~= seq![end] + rest);
    let all3 = seq![end] + rest;
    assert(all3.skip(1) =~= rest);
    let single = seq![package, end] + rest;
    assert(single.skip(1) =~= seq![end] + rest);
    let alone = seq![other] + rest;
    assert(alone.skip(1) =~= rest);
    assert(scan_lines(start, all) == scan_lines(a, all1));
    assert(scan_lines(a, all1) == scan_lines(a, all2));
    assert(scan_lines(a, all2) == scan_lines(ab, all3));
    assert(scan_lines(start, single) == scan_lines(a, all3));
    assert(scan_lines(start, all2) == scan_lines(b, all3));
}

/// A table of processors is read from nothing seen, line by line, to its end.
pub proof fn law_cores_listed(table: Seq<u8>)
    ensures
        cores_listed(table) == scan_lines(
            CoreScan { package: None, core: None, seen: Set::empty() },
            scan::lines(table),
        ).seen,
        scan_lines(
            CoreScan { package: None, core: None, seen: Set::empty() },
            Seq::<Seq<u8>>::empty(),
        ).seen == Set::<(Seq<u8>, Seq<u8>)>::empty(),
{
}

/// The number of kibibytes is that behind the key, on the first line that has the
/// key and a number; other lines are passed over.
pub proof fn law_kibibytes(
    key: Seq<u8>,
    front: Seq<u8>,
    w: Seq<u8>,
    tail: Seq<u8>,
    k: u64,
    other: Seq<u8>,
    rest: Seq<Seq<u8>>,
)
    requires
        forall|i: int| 0 <= i < front.len() ==> 9 <= #[trigger] front[i] <= 13 || front[i] == 32,
        w.len() > 0,
        forall|i: int| 0 <= i < w.len() ==> 48 <= #[trigger] w[i] <= 57,
        text::numeral_value(w, 10) == k,
        !scan::begins_with(other, key),
    ensures
        kibibytes_listed(seq![key + (front + w + seq![32u8] + tail)] + rest, key) == Some(k),
        kibibytes_listed(seq![other] + rest, key) == kibibytes_listed(rest, key),
        kibibytes_listed(Seq::<Seq<u8>>::empty(), key) is None,
{
    assert forall|i: int| 0 <= i < w.len() implies #[trigger] w[i] < 128 && !(9 <= w[i] <= 13 || w[i]
        == 32) by {
        assert(48 <= w[i] <= 57);
    }
    scan::law_first_word(front, w, 32, tail);
    assert(w[0] != 43);
    scan::law_parsed(w, w, k);
    let value = front + w + seq![32u8] + tail;
    let line = key + value;
    assert(line.take(key.len() as int) =~= key);
    assert(line.skip(key.len() as int) =~= value);
    let all = seq![line] + rest;
    assert(all[0] == line);
    let alone = seq![other] + rest;
    assert(alone[0] == other);
    assert(alone.skip(1) =~= rest);
}

} // verus!
