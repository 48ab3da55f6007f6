//! Performance records: one JSON object per line.
//!
//! The recorder keeps the phase that is running and the last reading of the
//! processor time, and gives out the lines; the caller reads the clocks and
//! writes the lines to the file.
use crate::double;
use crate::double::Double;
use crate::hardware;
use crate::hardware::find_kibibytes;
use crate::scan;
use crate::text;
use crate::text::{push_decimal, push_padded};
use vstd::prelude::*;
use vstd::string::*;

verus! {

/// A character inside a JSON string.
pub open spec fn escaped_char(c: char) -> Seq<char> {
    if c == '"' {
        seq!['\\', '"']
    } else if c == '\\' {
        seq!['\\', '\\']
    } else if c == '\n' {
        seq!['\\', 'n']
    } else if c == '\r' {
        seq!['\\', 'r']
    } else if c == '\t' {
        seq!['\\', 't']
    } else if (c as int) < 32 {
        seq!['\\', 'u'] + text::padded(c as int, 16, 4)
    } else {
        seq![c]
    }
}

/// The inside of a JSON string.
pub open spec fn escaped_body(s: Seq<char>) -> Seq<char>
    decreases s.len(),
{
    if s.len() == 0 {
        Seq::empty()
    } else {
        escaped_char(s[0]) + escaped_body(s.skip(1))
    }
}

/// A JSON string.
pub open spec fn escaped(s: Seq<char>) -> Seq<char> {
    seq!['"'] + escaped_body(s) + seq!['"']
}

proof fn lemma_escaped_push(s: Seq<char>, c: char)
    ensures
        escaped_body(s.push(c)) == escaped_body(s) + escaped_char(c),
    decreases s.len(),
{
    let e = Seq::<char>::empty();
    if s.len() == 0 {
        assert(s.push(c).skip(1) =~= e);
        assert(escaped_body(e) =~= e);
        assert(escaped_char(c) + e =~= escaped_char(c));
        assert(escaped_body(s) + escaped_char(c) =~= escaped_char(c));
    } else {
        lemma_escaped_push(s.skip(1), c);
        assert(s.push(c).skip(1) =~= s.skip(1).push(c));
        let a = escaped_char(s[0]);
        let b = escaped_body(s.skip(1));
        assert(a + (b + escaped_char(c)) =~= (a + b) + escaped_char(c));
    }
}

/// Quote a text as a JSON string.
pub fn json_escape(s: &str) -> (r: String)
    ensures
        r@ == escaped(s@),
{
    let mut r: String = String::new();
    r.push('"');
    let n: usize = s.unicode_len();
    let mut i: usize = 0;
    assert(s@.take(0) =~= Seq::<char>::empty());
    assert(r@ =~= seq!['"'] + escaped_body(s@.take(0)));
    while i < n
        invariant
            i <= n == s@.len(),
            r@ == seq!['"'] + escaped_body(s@.take(i as int)),
        decreases n - i,
    {
        let c: char = s.get_char(i);
        let ghost before = r@;
        push_escaped(&mut r, c);
        proof {
            assert(s@.take(i + 1) =~= s@.take(i as int).push(c));
            lemma_escaped_push(s@.take(i as int), c);
            assert(r@ =~= seq!['"'] + escaped_body(s@.take(i + 1)));
        }
        i = i + 1;
    }
    assert(s@.take(n as int) =~= s@);
    r.push('"');
    assert(r@ =~= escaped(s@));
    r
}

/// Append a character of a JSON string.
fn push_escaped(r: &mut String, c: char)
    ensures
        final(r)@ == old(r)@ + escaped_char(c),
{
    let ghost before = r@;
    if c == '"' || c == '\\' {
        r.push('\\');
        r.push(c);
    } else if c == '\n' {
        r.push('\\');
        r.push('n');
    } else if c == '\r' {
        r.push('\\');
        r.push('r');
    } else if c == '\t' {
        r.push('\\');
        r.push('t');
    } else if (c as u32) < 32 {
        r.push('\\');
        r.push('u');
        push_padded(r, c as u64, 16, 4);
    } else {
        r.push(c);
    }
    assert(r@ =~= before + escaped_char(c));
}

/// The value of a digit in base sixteen.
pub open spec fn hex_value(c: char) -> int {
    if '0' <= c <= '9' {
        c as int - 48
    } else {
        c as int - 87
    }
}

/// What the inside of a JSON string stands for.
pub open spec fn decoded(t: Seq<char>) -> Seq<char>
    decreases t.len(),
{
    if t.len() == 0 {
        Seq::empty()
    } else if t[0] != '\\' || t.len() < 2 {
        seq![t[0]] + decoded(t.skip(1))
    } else if t[1] == 'u' && t.len() >= 6 {
        let code = ((hex_value(t[2]) * 16 + hex_value(t[3])) * 16 + hex_value(t[4])) * 16
            + hex_value(t[5]);
        seq![code as char] + decoded(t.skip(6))
    } else {
        let c = if t[1] == 'n' {
            '\n'
        } else if t[1] == 'r' {
            '\r'
        } else if t[1] == 't' {
            '\t'
        } else {
            t[1]
        };
        seq![c] + decoded(t.skip(2))
    }
}

/// Reading one quoted character.
proof fn lemma_decode_char(c: char, rest: Seq<char>)
    ensures
        decoded(escaped_char(c) + rest) == seq![c] + decoded(rest),
{
    let head = escaped_char(c);
    let t = head + rest;
    assert(t.skip(head.len() as int) =~= rest);
    if c == '"' || c == '\\' || c == '\n' || c == '\r' || c == '\t' {
        assert(head.len() == 2);
        assert(t[0] == '\\');
        assert(t[1] == head[1]);
    } else if (c as int) < 32 {
        lemma_four_digits(c as int);
        let d = text::padded(c as int, 16, 4);
        assert(head.len() == 6);
        assert(t[0] == '\\' && t[1] == 'u');
        assert(t[2] == d[0] && t[3] == d[1] && t[4] == d[2] && t[5] == d[3]);
    } else {
        assert(head.len() == 1);
        assert(t[0] == c);
    }
}

/// Reading a JSON string back gives the text that was quoted.
pub proof fn law_escape_decodes(s: Seq<char>)
    ensures
        decoded(escaped_body(s)) == s,
    decreases s.len(),
{
    if s.len() == 0 {
        assert(decoded(escaped_body(s)) =~= s);
    } else {
        law_escape_decodes(s.skip(1));
        lemma_decode_char(s[0], escaped_body(s.skip(1)));
        assert(seq![s[0]] + s.skip(1) =~= s);
    }
}

/// The four digits of a control character's code.
proof fn lemma_four_digits(c: int)
    requires
        0 <= c < 32,
    ensures
        text::padded(c, 16, 4).len() == 4,
        hex_value(text::padded(c, 16, 4)[0]) == 0,
        hex_value(text::padded(c, 16, 4)[1]) == 0,
        hex_value(text::padded(c, 16, 4)[2]) == c / 16,
        hex_value(text::padded(c, 16, 4)[3]) == c % 16,
{
    text::lemma_padded_len(c, 16, 4);
    reveal_with_fuel(text::padded, 5);
    assert(c / 16 / 16 == 0);
    assert(c / 16 % 16 == c / 16);
}

/// Processor time and wall time, in microseconds.
#[derive(Debug, Clone, Copy)]
pub struct CpuSnapshot {
    pub wall_us: u64,
    pub user_us: u64,
    pub sys_us: u64,
}

/// `a - b`, or zero where `b` is larger.
pub open spec fn minus(a: u64, b: u64) -> u64 {
    if a >= b {
        (a - b) as u64
    } else {
        0
    }
}

fn saturating_minus(a: u64, b: u64) -> (r: u64)
    ensures
        r == minus(a, b),
{
    if a >= b {
        a - b
    } else {
        0
    }
}

impl CpuSnapshot {
    /// Processor time between two readings.
    pub open spec fn busy_since(self, last: CpuSnapshot) -> u64 {
        let sum = minus(self.user_us, last.user_us) + minus(self.sys_us, last.sys_us);
        if sum <= u64::MAX {
            sum as u64
        } else {
            u64::MAX
        }
    }

    /// Processor time over wall time between two readings, in double precision;
    /// zero where no wall time has passed.
    pub open spec fn cores(self, last: CpuSnapshot) -> Double {
        let wall = minus(self.wall_us, last.wall_us);
        if wall == 0 {
            Double { mant: 0, exp: 0 }
        } else {
            Double::quotient(
                Double::of(self.busy_since(last) as int, 0),
                Double::of(wall as int, 0),
            )
        }
    }

    /// The cores that were busy between two readings.
    pub fn cores_since(&self, last: &CpuSnapshot) -> (d: Double)
        ensures
            d == self.cores(*last),
            d.wf(),
            d.exp <= 12,
    {
        let wall: u64 = saturating_minus(self.wall_us, last.wall_us);
        let user: u64 = saturating_minus(self.user_us, last.user_us);
        let sys: u64 = saturating_minus(self.sys_us, last.sys_us);
        let busy: u64 = if user <= 0xffff_ffff_ffff_ffff - sys {
            user + sys
        } else {
            0xffff_ffff_ffff_ffff
        };
        if wall == 0 {
            Double { mant: 0, exp: 0 }
        } else {
            Double::from_u64(busy).over(Double::from_u64(wall))
        }
    }
}

/// What a recorder remembers.
#[derive(Debug)]
pub struct Recording {
    /// The phase that is running, and when it began, in microseconds.
    pub current_phase: Option<(String, u64)>,
    /// The last reading of the processor time.
    pub last_cpu: CpuSnapshot,
}

/// A recorder; one that is disabled gives out nothing.
#[derive(Debug)]
pub struct PerfRecorder {
    pub inner: Option<Recording>,
}

/// The line for the start of a run.
pub open spec fn run_start_line(
    unix_ms: u64,
    digits: u64,
    algorithm: Seq<char>,
    cores: u64,
) -> Seq<char> {
    "{\"t_ms\":0,\"kind\":\"run-start\",\"unix_ms\":"@ + text::numeral(unix_ms as int, 10)
        + ",\"digits\":"@ + text::numeral(digits as int, 10) + ",\"algorithm\":"@ + escaped(
        algorithm,
    ) + ",\"cores\":"@ + text::numeral(cores as int, 10) + "}"@
}

/// The line for the start of a phase.
pub open spec fn phase_start_line(t_us: u64, phase: Seq<char>) -> Seq<char> {
    "{\"t_ms\":"@ + text::numeral(t_us as int / 1000, 10) + ",\"kind\":\"phase-start\",\"phase\":"@
        + escaped(phase) + "}"@
}

/// The line for the end of a phase.
pub open spec fn phase_end_line(t_us: u64, phase: Seq<char>, started_us: u64) -> Seq<char> {
    "{\"t_ms\":"@ + text::numeral(t_us as int / 1000, 10) + ",\"kind\":\"phase-end\",\"phase\":"@
        + escaped(phase) + ",\"duration_ms\":"@ + text::numeral(
        minus(t_us, started_us) as int / 1000,
        10,
    ) + "}"@
}

/// The line for the end of a run.
pub open spec fn run_end_line(t_us: u64) -> Seq<char> {
    "{\"t_ms\":"@ + text::numeral(t_us as int / 1000, 10) + ",\"kind\":\"run-end\"}"@
}

/// The line for a sample.
pub open spec fn sample_line(
    t_us: u64,
    phase: Seq<char>,
    rss_bytes: u64,
    cpu_cores: Double,
) -> Seq<char> {
    "{\"t_ms\":"@ + text::numeral(t_us as int / 1000, 10) + ",\"kind\":\"sample\",\"phase\":"@
        + escaped(phase) + ",\"rss_mb\":"@ + text::numeral(rss_bytes as int / 0x10_0000, 10)
        + ",\"cpu_cores\":"@ + double::fixed_text(cpu_cores, 3) + "}"@
}

/// `{"t_ms":` and a time.
fn line_at(t_us: u64) -> (s: String)
    ensures
        s@ == "{\"t_ms\":"@ + text::numeral(t_us as int / 1000, 10),
{
    let mut s: String = "{\"t_ms\":".to_owned();
    push_decimal(&mut s, t_us / 1000);
    s
}

impl Recording {
    /// The name of the running phase; empty where none runs.
    pub open spec fn phase_name(self) -> Seq<char> {
        match self.current_phase {
            Some((name, _)) => name@,
            None => Seq::empty(),
        }
    }
}

impl PerfRecorder {
    /// A recorder that gives out nothing.
    pub fn disabled() -> (r: PerfRecorder)
        ensures
            r.inner is None,
    {
        PerfRecorder { inner: None }
    }

    /// Start recording.  The line is that for the start of the run.
    pub fn open(
        digits: u64,
        algorithm: &str,
        unix_ms: u64,
        cores: u64,
        cpu: CpuSnapshot,
    ) -> (r: (PerfRecorder, String))
        ensures
            r.0.inner matches Some(rec) && rec.current_phase is None && rec.last_cpu == cpu,
            r.1@ == run_start_line(unix_ms, digits, algorithm@, cores),
    {
        let mut s: String = "{\"t_ms\":0,\"kind\":\"run-start\",\"unix_ms\":".to_owned();
        push_decimal(&mut s, unix_ms);
        s.append(",\"digits\":");
        push_decimal(&mut s, digits);
        s.append(",\"algorithm\":");
        s.append(json_escape(algorithm).as_str());
        s.append(",\"cores\":");
        push_decimal(&mut s, cores);
        s.append("}");
        let rec: Recording = Recording { current_phase: None, last_cpu: cpu };
        (PerfRecorder { inner: Some(rec) }, s)
    }

    /// Whether there is a recording.
    pub fn is_enabled(&self) -> (r: bool)
        ensures
            r == (self.inner is Some),
    {
        self.inner.is_some()
    }

    /// A phase starts.
    pub fn phase_start(&mut self, phase: &str, t_us: u64) -> (line: Option<String>)
        ensures
            old(self).inner is None ==> line is None && final(self).inner is None,
            old(self).inner is Some ==> {
                &&& line matches Some(s) && s@ == phase_start_line(t_us, phase@)
                &&& final(self).inner matches Some(rec) && rec.last_cpu == old(
                    self,
                ).inner->Some_0.last_cpu && (rec.current_phase matches Some((name, started))
                    && name@ == phase@ && started == t_us)
            },
    {
        let last_cpu: CpuSnapshot = match &self.inner {
            None => {
                return None;
            },
            Some(rec) => rec.last_cpu,
        };
        self.inner = Some(Recording { current_phase: Some((phase.to_owned(), t_us)), last_cpu });
        let mut s: String = line_at(t_us);
        s.append(",\"kind\":\"phase-start\",\"phase\":");
        s.append(json_escape(phase).as_str());
        s.append("}");
        Some(s)
    }

    /// The running phase ends; without one, nothing happens.
    pub fn phase_end(&mut self, t_us: u64) -> (line: Option<String>)
        ensures
            old(self).inner is None ==> line is None && final(self).inner is None,
            old(self).inner matches Some(rec) ==> {
                &&& final(self).inner matches Some(after) && after.current_phase is None
                    && after.last_cpu == rec.last_cpu
                &&& match rec.current_phase {
                    None => line is None,
                    Some((name, started)) => line matches Some(s) && s@ == phase_end_line(
                        t_us,
                        name@,
                        started,
                    ),
                }
            },
    {
        let inner: Option<Recording> = self.inner.take();
        match inner {
            None => None,
            Some(rec) => {
                self.inner = Some(Recording { current_phase: None, last_cpu: rec.last_cpu });
                match rec.current_phase {
                    None => None,
                    Some((name, started)) => {
                        let mut s: String = line_at(t_us);
                        s.append(",\"kind\":\"phase-end\",\"phase\":");
                        s.append(json_escape(name.as_str()).as_str());
                        s.append(",\"duration_ms\":");
                        push_decimal(&mut s, saturating_minus(t_us, started) / 1000);
                        s.append("}");
                        Some(s)
                    },
                }
            },
        }
    }

    /// The run ends.
    pub fn run_end(&self, t_us: u64) -> (line: Option<String>)
        ensures
            self.inner is None ==> line is None,
            self.inner is Some ==> (line matches Some(s) && s@ == run_end_line(t_us)),
    {
        if self.inner.is_none() {
            return None;
        }
        let mut s: String = line_at(t_us);
        s.append(",\"kind\":\"run-end\"}");
        Some(s)
    }

    /// Take a sample: resident memory, and the cores that were busy since the last
    /// one.
    pub fn sample(&mut self, t_us: u64, rss_bytes: u64, cpu: CpuSnapshot) -> (line: Option<String>)
        ensures
            old(self).inner is None ==> line is None && final(self).inner is None,
            old(self).inner matches Some(rec) ==> {
                &&& final(self).inner matches Some(after) && after.current_phase
                    == rec.current_phase && after.last_cpu == cpu
                &&& line matches Some(s) && s@ == sample_line(
                    t_us,
                    rec.phase_name(),
                    rss_bytes,
                    cpu.cores(rec.last_cpu),
                )
            },
    {
        let inner: Option<Recording> = self.inner.take();
        match inner {
            None => None,
            Some(rec) => {
                let d: Double = cpu.cores_since(&rec.last_cpu);
                let mut s: String = line_at(t_us);
                s.append(",\"kind\":\"sample\",\"phase\":");
                match &rec.current_phase {
                    None => {
                        proof {
                            reveal_strlit("");
                            assert(""@ =~= Seq::<char>::empty());
                        }
                        s.append(json_escape("").as_str());
                    },
                    Some(p) => {
                        s.append(json_escape(p.0.as_str()).as_str());
                    },
                }
                s.append(",\"rss_mb\":");
                push_decimal(&mut s, rss_bytes / 0x10_0000);
                s.append(",\"cpu_cores\":");
                d.push_fixed(&mut s, 3);
                s.append("}");
                self.inner = Some(Recording { current_phase: rec.current_phase, last_cpu: cpu });
                Some(s)
            },
        }
    }
}

/// The time between samples: as asked for, but ten milliseconds at least.
pub fn sample_interval(sample_ms: u64) -> (r: u64)
    ensures
        r == if sample_ms < 10 { 10 } else { sample_ms },
        r >= 10 && r >= sample_ms,
        r == 10 || r == sample_ms,
{
    if sample_ms < 10 {
        10
    } else {
        sample_ms
    }
}

/// How long to sleep before looking at the stop flag again; zero when a sample
/// is due.
pub fn next_sleep(interval: u64, waited: u64) -> (r: u64)
    ensures
        waited >= interval ==> r == 0,
        waited < interval ==> r == if interval - waited < 50 { interval - waited } else { 50 },
        r <= 50,
        waited < interval ==> 0 < r && waited + r <= interval,
        r == 50 || waited + r >= interval,
{
    if waited >= interval {
        0
    } else if interval - waited < 50 {
        interval - waited
    } else {
        50
    }
}

/// `VmRSS:`.
pub open spec fn resident_key() -> Seq<u8> {
    seq![86, 109, 82, 83, 83, 58]
}

/// The bytes of resident memory that a process table gives, or zero.  There is
/// no result where the kibibytes of the table do not fit in bytes.
pub fn rss_bytes(table: &[u8]) -> (r: Option<u64>)
    ensures
        match hardware::kibibytes_listed(scan::lines(table@), resident_key()) {
            None => r == Some(0u64),
            Some(k) => if k * 1024 <= u64::MAX {
                r == Some((k * 1024) as u64)
            } else {
                r is None
            },
        },
{
    let key: [u8; 6] = [86, 109, 82, 83, 83, 58];
    assert(key@ =~= resident_key());
    match find_kibibytes(table, &key) {
        Some(k) => k.checked_mul(1024),
        None => Some(0),
    }
}

/// A character inside a JSON string: those from space on stand for themselves, but
/// a quote and a backslash have a backslash before them; line feed, carriage return
/// and tab are `n`, `r` and `t` behind a backslash, and the other control characters
/// are `u00` behind one, and two hexadecimal digits.
pub proof fn law_escaped_char(c: char)
    ensures
        32 <= c as int && c as int != 34 && c as int != 92 ==> escaped_char(c) == seq![c],
        c as int == 34 || c as int == 92 ==> escaped_char(c) == seq![92 as char, c],
        c as int == 10 ==> escaped_char(c) == seq![92 as char, 110 as char],
        c as int == 13 ==> escaped_char(c) == seq![92 as char, 114 as char],
        c as int == 9 ==> escaped_char(c) == seq![92 as char, 116 as char],
        (c as int) < 32 && c as int != 10 && c as int != 13 && c as int != 9 ==> {
            let t = escaped_char(c);
            &&& t.len() == 6
            &&& t[0] as int == 92
            &&& t[1] as int == 117
            &&& t[2] as int == 48
            &&& t[3] as int == 48
            &&& t[4] as int == 48 + c as int / 16
            &&& t[5] as int == if c as int % 16 < 10 {
                48 + c as int % 16
            } else {
                87 + c as int % 16
            }
        },
{
    if (c as int) < 32 {
        lemma_four_digits(c as int);
        text::law_low_digits(c as int, 16, 4);
        reveal_with_fuel(text::padded, 5);
        let d = text::padded(c as int, 16, 4);
        let n = c as int;
        assert(n / 16 / 16 == 0 && n / 16 / 16 / 16 == 0);
        assert(n / 16 % 16 == n / 16);
        assert(d[3] == text::digit_char(n % 16));
        assert(d[2] == text::digit_char(n / 16 % 16));
        assert(d[1] == text::digit_char(0));
        assert(d[0] == text::digit_char(0));
    }
}

/// A JSON string is its characters, one after the other, between quotes; texts that
/// are put together are quoted together.
pub proof fn law_escaped(s: Seq<char>, c: char)
    ensures
        escaped_body(s.push(c)) == escaped_body(s) + escaped_char(c),
        escaped_body(Seq::<char>::empty()).len() == 0,
        escaped(s).len() == escaped_body(s).len() + 2,
        escaped(s)[0] as int == 34,
        escaped(s)[escaped(s).len() - 1] as int == 34,
        escaped(s).subrange(1, escaped(s).len() - 1) == escaped_body(s),
{
    lemma_escaped_push(s, c);
    assert(escaped(s).subrange(1, escaped(s).len() - 1) =~= escaped_body(s));
}

/// A difference of clocks is never negative, and adds up with the earlier reading
/// to the later one.
pub proof fn law_minus(a: u64, b: u64)
    ensures
        a >= b ==> minus(a, b) + b == a,
        a <= b ==> minus(a, b) == 0,
{
}

/// The cores that were busy between two readings: the processor time of user and
/// system over the wall time, in double precision, and none where no time passed.
pub proof fn law_cores_busy(now: CpuSnapshot, last: CpuSnapshot)
    requires
        last.wall_us <= now.wall_us,
        last.user_us <= now.user_us,
        last.sys_us <= now.sys_us,
        (now.user_us - last.user_us) + (now.sys_us - last.sys_us) <= u64::MAX,
    ensures
        now.busy_since(last) == (now.user_us - last.user_us) + (now.sys_us - last.sys_us),
        now.wall_us == last.wall_us ==> now.cores(last).mant == 0,
        now.wall_us > last.wall_us ==> now.cores(last) == Double::quotient(
            Double::of((now.user_us - last.user_us) + (now.sys_us - last.sys_us), 0),
            Double::of(now.wall_us - last.wall_us, 0),
        ),
{
}

/// The lines of a record, with `ms` for the whole milliseconds of a time in
/// microseconds, `long` for those between two times, and `mb` for the whole
/// mebibytes.
pub proof fn law_lines(
    t_us: u64,
    started_us: u64,
    phase: Seq<char>,
    rss_bytes: u64,
    cores: Double,
    ms: int,
    long: int,
    mb: int,
)
    requires
        started_us <= t_us,
        1000 * ms <= t_us < 1000 * (ms + 1),
        1000 * long <= t_us - started_us < 1000 * (long + 1),
        1_048_576 * mb <= rss_bytes < 1_048_576 * (mb + 1),
    ensures
        phase_start_line(t_us, phase) == "{\"t_ms\":"@ + text::numeral(ms, 10)
            + ",\"kind\":\"phase-start\",\"phase\":"@ + escaped(phase) + "}"@,
        phase_end_line(t_us, phase, started_us) == "{\"t_ms\":"@ + text::numeral(ms, 10)
            + ",\"kind\":\"phase-end\",\"phase\":"@ + escaped(phase) + ",\"duration_ms\":"@
            + text::numeral(long, 10) + "}"@,
        run_end_line(t_us) == "{\"t_ms\":"@ + text::numeral(ms, 10) + ",\"kind\":\"run-end\"}"@,
        sample_line(t_us, phase, rss_bytes, cores) == "{\"t_ms\":"@ + text::numeral(ms, 10)
            + ",\"kind\":\"sample\",\"phase\":"@ + escaped(phase) + ",\"rss_mb\":"@ + text::numeral(
            mb,
            10,
        ) + ",\"cpu_cores\":"@ + double::fixed_text(cores, 3) + "}"@,
{
    assert(t_us as int / 1000 == ms);
    assert((t_us - started_us) / 1000 == long);
    assert(rss_bytes as int / 0x10_0000 == mb);
}

/// The first line of a record: its time is zero, and it gives the date, the digits,
/// the algorithm and the cores.
pub proof fn law_run_start(unix_ms: u64, digits: u64, algorithm: Seq<char>, cores: u64)
    ensures
        run_start_line(unix_ms, digits, algorithm, cores)
            == "{\"t_ms\":0,\"kind\":\"run-start\",\"unix_ms\":"@ + text::numeral(unix_ms as int, 10)
            + ",\"digits\":"@ + text::numeral(digits as int, 10) + ",\"algorithm\":"@ + escaped(
            algorithm,
        ) + ",\"cores\":"@ + text::numeral(cores as int, 10) + "}"@,
{
}

/// The key of the resident memory, letter for letter.
pub proof fn law_resident_key()
    ensures
        resident_key().len() == 6,
        forall|i: int| 0 <= i < 6 ==> #[trigger] resident_key()[i] as char == "VmRSS:"@[i],
{
    reveal_strlit("VmRSS:");
}

/// The phase that a sample names is the one that runs, and none where none does.
pub proof fn law_phase_name(r: Recording, name: String, started: u64)
    ensures
        r.current_phase == Some((name, started)) ==> r.phase_name() == name@,
        r.current_phase is None ==> r.phase_name().len() == 0,
{
}

} // verus!
