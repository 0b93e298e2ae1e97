use vstd::prelude::*;
use vstd::string::StrSliceExecFns;
use crate::digits::digit_run_end;
use crate::digits::digits_value;
use crate::digits::is_digit_char;
use crate::record::ProcessInfo;

verus! {

pub open spec fn is_blank(c: char) -> bool {
    c == ' ' || c == '\t'
}

/// The position of the newline that ends the line running from `i`, or the
/// end of the text.
pub open spec fn line_end(s: Seq<char>, i: int) -> int
    decreases s.len() - i,
{
    if i < 0 || i >= s.len() {
        s.len() as int
    } else if s[i] == '\n' {
        i
    } else {
        line_end(s, i + 1)
    }
}

pub proof fn lemma_line_end(s: Seq<char>, i: int)
    requires
        0 <= i <= s.len(),
    ensures
        i <= line_end(s, i) <= s.len(),
    decreases s.len() - i,
{
    if i < s.len() && s[i] != '\n' {
        lemma_line_end(s, i + 1);
    }
}

/// The first position at or after `i` that does not hold a space or tab.
pub open spec fn skip_blanks(s: Seq<char>, i: int) -> int
    decreases s.len() - i,
{
    if i < 0 || i >= s.len() || !is_blank(s[i]) {
        i
    } else {
        skip_blanks(s, i + 1)
    }
}

pub proof fn lemma_skip_blanks(s: Seq<char>, i: int)
    requires
        0 <= i <= s.len(),
    ensures
        i <= skip_blanks(s, i) <= s.len(),
    decreases s.len() - i,
{
    if i < s.len() && is_blank(s[i]) {
        lemma_skip_blanks(s, i + 1);
    }
}

pub open spec fn has_prefix(s: Seq<char>, i: int, p: Seq<char>) -> bool {
    0 <= i && i + p.len() <= s.len() && s.subrange(i, i + p.len()) == p
}

pub open spec fn name_prefix() -> Seq<char> {
    seq!['N', 'a', 'm', 'e', ':']
}

pub open spec fn pid_prefix() -> Seq<char> {
    seq!['P', 'i', 'd', ':']
}

pub open spec fn ppid_prefix() -> Seq<char> {
    seq!['P', 'P', 'i', 'd', ':']
}

/// The first line at or after `i` that begins with `Name:` and carries a
/// nonempty rest after leading blanks: that rest, and the position after
/// the line.
pub open spec fn find_name_line(s: Seq<char>, i: int) -> Option<(Seq<char>, int)>
    decreases s.len() + 1 - i
        when 0 <= i
        via find_name_line_dec
{
    if i >= s.len() {
        None
    } else {
        let e = line_end(s, i);
        let t = skip_blanks(s, i + name_prefix().len());
        if has_prefix(s, i, name_prefix()) && t < e {
            Some((s.subrange(t, e), e + 1))
        } else {
            find_name_line(s, e + 1)
        }
    }
}

#[via_fn]
proof fn find_name_line_dec(s: Seq<char>, i: int) {
    if 0 <= i < s.len() {
        lemma_line_end(s, i);
    }
}

/// The first line at or after `i` that begins with `p` followed by blanks
/// and at least one digit: the value of the digit run, and the position
/// after the line.
pub open spec fn find_num_line(s: Seq<char>, i: int, p: Seq<char>) -> Option<(nat, int)>
    decreases s.len() + 1 - i
        when 0 <= i
        via find_num_line_dec
{
    if i >= s.len() {
        None
    } else {
        let e = line_end(s, i);
        let t = skip_blanks(s, i + p.len());
        let de = digit_run_end(s, t);
        if has_prefix(s, i, p) && t < de {
            Some((digits_value(s, t, de), e + 1))
        } else {
            find_num_line(s, e + 1, p)
        }
    }
}

#[via_fn]
proof fn find_num_line_dec(s: Seq<char>, i: int, p: Seq<char>) {
    if 0 <= i < s.len() {
        lemma_line_end(s, i);
    }
}

/// What a status blob means: a `Name:` line, later a `Pid:` line, later a
/// `PPid:` line, each read as above.
pub open spec fn spec_parse_status(s: Seq<char>) -> Option<(Seq<char>, nat, nat)> {
    match find_name_line(s, 0) {
        None => None,
        Some((nm, i1)) => match find_num_line(s, i1, pid_prefix()) {
            None => None,
            Some((pid, i2)) => match find_num_line(s, i2, ppid_prefix()) {
                None => None,
                Some((ppid, _)) => Some((nm, pid, ppid)),
            },
        },
    }
}

/// A blob parses into a record exactly when the pattern matches and both
/// numbers fit a pid.
pub open spec fn parses_to_record(s: Seq<char>) -> bool {
    match spec_parse_status(s) {
        Some((nm, pid, ppid)) => pid <= u32::MAX && ppid <= u32::MAX,
        None => false,
    }
}

pub open spec fn parsed_name(s: Seq<char>) -> Seq<char> {
    spec_parse_status(s).unwrap().0
}

pub open spec fn parsed_pid(s: Seq<char>) -> nat {
    spec_parse_status(s).unwrap().1
}

pub open spec fn parsed_ppid(s: Seq<char>) -> nat {
    spec_parse_status(s).unwrap().2
}

fn line_end_exec(s: &str, i: usize, n: usize) -> (e: usize)
    requires
        n == s@.len(),
        i <= n,
    ensures
        e == line_end(s@, i as int),
        i <= e <= n,
{
    let mut j = i;
    while j < n
        invariant
            n == s@.len(),
            i <= j <= n,
            line_end(s@, i as int) == line_end(s@, j as int),
        decreases n - j,
    {
        if s.get_char(j) == '\n' {
            return j;
        }
        j = j + 1;
    }
    j
}

fn skip_blanks_exec(s: &str, i: usize, n: usize) -> (t: usize)
    requires
        n == s@.len(),
        i <= n,
    ensures
        t == skip_blanks(s@, i as int),
        i <= t <= n,
{
    let mut j = i;
    while j < n
        invariant
            n == s@.len(),
            i <= j <= n,
            skip_blanks(s@, i as int) == skip_blanks(s@, j as int),
        decreases n - j,
    {
        let c = s.get_char(j);
        if c != ' ' && c != '\t' {
            return j;
        }
        j = j + 1;
    }
    j
}

fn has_prefix_exec(s: &str, i: usize, n: usize, p: &str, plen: usize) -> (b: bool)
    requires
        n == s@.len(),
        i <= n,
        plen == p@.len(),
    ensures
        b == has_prefix(s@, i as int, p@),
{
    if plen > n - i {
        return false;
    }
    let mut j: usize = 0;
    while j < plen
        invariant
            n == s@.len(),
            plen == p@.len(),
            i <= n,
            plen <= n - i,
            j <= plen,
            forall|t: int| 0 <= t < j ==> s@[i + t] == p@[t],
        decreases plen - j,
    {
        if s.get_char(i + j) != p.get_char(j) {
            return false;
        }
        j = j + 1;
    }
    proof {
        assert(s@.subrange(i as int, i + p@.len()) =~= p@);
    }
    true
}

/// Scans the digit run at `t`; the reported value is exact when it fits a
/// pid and is only known to be too large otherwise.
fn scan_digits(s: &str, t: usize, n: usize) -> (r: (u64, usize))
    requires
        n == s@.len(),
        t <= n,
    ensures
        r.1 == digit_run_end(s@, t as int),
        t <= r.1 <= n,
        digits_value(s@, t as int, r.1 as int) <= u32::MAX ==> r.0 == digits_value(
            s@,
            t as int,
            r.1 as int,
        ),
        digits_value(s@, t as int, r.1 as int) > u32::MAX ==> r.0 > u32::MAX as u64,
{
    let mut j = t;
    let mut acc: u64 = 0;
    loop
        invariant_except_break
            n == s@.len(),
            t <= j <= n,
            digit_run_end(s@, t as int) == digit_run_end(s@, j as int),
            digits_value(s@, t as int, j as int) <= u32::MAX ==> acc == digits_value(
                s@,
                t as int,
                j as int,
            ),
            digits_value(s@, t as int, j as int) > u32::MAX ==> acc > u32::MAX as u64,
            acc <= 0xFFFF_FFFFu64 * 10 + 9,
        ensures
            n == s@.len(),
            t <= j <= n,
            j as int == digit_run_end(s@, t as int),
            digits_value(s@, t as int, j as int) <= u32::MAX ==> acc == digits_value(
                s@,
                t as int,
                j as int,
            ),
            digits_value(s@, t as int, j as int) > u32::MAX ==> acc > u32::MAX as u64,
        decreases n - j,
    {
        if j >= n {
            proof {
                assert(digit_run_end(s@, j as int) == j as int);
            }
            break;
        }
        let c = s.get_char(j);
        let cv = c as u32;
        if !(cv >= 48 && cv <= 57) {
            proof {
                assert(!is_digit_char(s@[j as int]));
                assert(digit_run_end(s@, j as int) == j as int);
            }
            break;
        }
        let d: u64 = (cv - 48) as u64;
        proof {
            assert(is_digit_char(s@[j as int]));
            assert(digit_run_end(s@, j as int) == digit_run_end(s@, j + 1));
            let v = digits_value(s@, t as int, j as int);
            let v2 = digits_value(s@, t as int, j + 1);
            assert(v2 == v * 10 + (d as nat));
            if v > u32::MAX {
                assert(v * 10 >= v) by (nonlinear_arith)
                    requires
                        v >= 0,
                ;
                assert(v2 > u32::MAX);
            }
        }
        if acc <= 0xFFFF_FFFFu64 {
            acc = acc * 10 + d;
        }
        j = j + 1;
    }
    (acc, j)
}

/// Reads one process's status text: the first `Name:` line gives the name,
/// a later `Pid:` line the pid, a later `PPid:` line the parent pid. Fails
/// exactly when that pattern is absent or a number does not fit a pid.
pub fn parse_proc_stat(stat: &str) -> (r: Option<ProcessInfo>)
    ensures
        match r {
            Some(info) => {
                &&& parses_to_record(stat@)
                &&& info.name@ == parsed_name(stat@)
                &&& info.pid == parsed_pid(stat@)
                &&& info.ppid == parsed_ppid(stat@)
            },
            None => !parses_to_record(stat@),
        },
{
    proof {
        reveal_strlit("Pid:");
        reveal_strlit("PPid:");
        assert("Pid:"@ =~= pid_prefix());
        assert("PPid:"@ =~= ppid_prefix());
    }
    let n = stat.unicode_len();
    let (name, i1) = match find_name_line_exec(stat, 0, n) {
        Some(x) => x,
        None => {
            return None;
        },
    };
    proof {
        let x1 = find_name_line(stat@, 0).unwrap().1;
        if x1 != i1 as int {
            assert(x1 == n + 1 && i1 == n);
            assert(find_num_line(stat@, x1, pid_prefix()) is None);
            assert(find_num_line(stat@, i1 as int, pid_prefix()) is None);
        }
    }
    let (pid64, i2) = match find_num_line_exec(stat, i1, n, "Pid:", 4) {
        Some(x) => x,
        None => {
            return None;
        },
    };
    proof {
        let x1 = find_name_line(stat@, 0).unwrap().1;
        let x2 = find_num_line(stat@, x1, pid_prefix()).unwrap().1;
        if x2 != i2 as int {
            assert(find_num_line(stat@, x2, ppid_prefix()) is None);
            assert(find_num_line(stat@, i2 as int, ppid_prefix()) is None);
        }
    }
    let (ppid64, _i3) = match find_num_line_exec(stat, i2, n, "PPid:", 5) {
        Some(x) => x,
        None => {
            return None;
        },
    };
    if pid64 > 0xFFFF_FFFFu64 || ppid64 > 0xFFFF_FFFFu64 {
        return None;
    }
    Some(ProcessInfo { pid: pid64 as u32, ppid: ppid64 as u32, name })
}

fn find_name_line_exec(s: &str, i: usize, n: usize) -> (r: Option<(String, usize)>)
    requires
        n == s@.len(),
        i <= n,
    ensures
        match r {
            Some((nm, nxt)) => {
                &&& find_name_line(s@, i as int) matches Some(x2) && x2.0 == nm@
                &&& nxt <= n
                &&& (find_name_line(s@, i as int).unwrap().1 == nxt as int || (find_name_line(
                    s@,
                    i as int,
                ).unwrap().1 == n + 1 && nxt == n))
            },
            None => find_name_line(s@, i as int) is None,
        },
{
    proof {
        reveal_strlit("Name:");
        assert("Name:"@ =~= name_prefix());
    }
    let mut j = i;
    while j < n
        invariant
            n == s@.len(),
            i <= j <= n,
            "Name:"@ == name_prefix(),
            find_name_line(s@, i as int) == find_name_line(s@, j as int),
        decreases n - j,
    {
        let e = line_end_exec(s, j, n);
        if has_prefix_exec(s, j, n, "Name:", 5) {
            let t2 = skip_blanks_exec(s, j + 5, n);
            if t2 < e {
                let nm = s.substring_char(t2, e).to_owned();
                if e < n {
                    return Some((nm, e + 1));
                } else {
                    return Some((nm, n));
                }
            }
        }
        if e >= n {
            proof {
                assert(find_name_line(s@, j as int) == find_name_line(s@, e + 1));
                assert(find_name_line(s@, e + 1) is None);
            }
            return None;
        }
        j = e + 1;
    }
    None
}

fn find_num_line_exec(s: &str, i: usize, n: usize, p: &str, plen: usize) -> (r: Option<
    (u64, usize),
>)
    requires
        n == s@.len(),
        i <= n,
        plen == p@.len(),
    ensures
        match r {
            Some((v, nxt)) => {
                &&& find_num_line(s@, i as int, p@) is Some
                &&& nxt <= n
                &&& (find_num_line(s@, i as int, p@).unwrap().1 == nxt as int || (find_num_line(
                    s@,
                    i as int,
                    p@,
                ).unwrap().1 == n + 1 && nxt == n))
                &&& (find_num_line(s@, i as int, p@).unwrap().0 <= u32::MAX ==> v
                    == find_num_line(s@, i as int, p@).unwrap().0)
                &&& (find_num_line(s@, i as int, p@).unwrap().0 > u32::MAX ==> v > u32::MAX
                    as u64)
            },
            None => find_num_line(s@, i as int, p@) is None,
        },
{
    let mut j = i;
    while j < n
        invariant
            n == s@.len(),
            i <= j <= n,
            plen == p@.len(),
            find_num_line(s@, i as int, p@) == find_num_line(s@, j as int, p@),
        decreases n - j,
    {
        let e = line_end_exec(s, j, n);
        if has_prefix_exec(s, j, n, p, plen) {
            let t = skip_blanks_exec(s, j + plen, n);
            proof {
                lemma_skip_blanks(s@, j + plen);
            }
            let (v, de) = scan_digits(s, t, n);
            if t < de {
                if e < n {
                    return Some((v, e + 1));
                } else {
                    return Some((v, n));
                }
            }
        }
        if e >= n {
            proof {
                assert(find_num_line(s@, j as int, p@) == find_num_line(s@, e + 1, p@));
                assert(find_num_line(s@, e + 1, p@) is None);
            }
            return None;
        }
        j = e + 1;
    }
    None
}

/// The plain-value view of a record.
pub open spec fn info_view(p: ProcessInfo) -> (u32, u32, Seq<char>) {
    (p.pid, p.ppid, p.name@)
}

pub open spec fn views_of(s: Seq<ProcessInfo>) -> Seq<(u32, u32, Seq<char>)> {
    s.map_values(|p: ProcessInfo| info_view(p))
}

/// The record that a blob parses to, as plain values.
pub open spec fn parsed_view(b: Seq<char>) -> (u32, u32, Seq<char>) {
    (parsed_pid(b) as u32, parsed_ppid(b) as u32, parsed_name(b))
}

pub open spec fn sorted_by_pid(s: Seq<ProcessInfo>) -> bool {
    forall|a: int, b: int|
        #![trigger s[a].pid, s[b].pid]
        0 <= a < b < s.len() ==> s[a].pid <= s[b].pid
}

fn min_pid_index(v: &Vec<ProcessInfo>) -> (m: usize)
    requires
        v@.len() > 0,
    ensures
        m < v@.len(),
        forall|t: int| 0 <= t < v@.len() ==> v@[m as int].pid <= #[trigger] v@[t].pid,
{
    let mut m: usize = 0;
    let mut t: usize = 1;
    while t < v.len()
        invariant
            v@.len() > 0,
            m < t <= v@.len(),
            forall|w: int| 0 <= w < t ==> v@[m as int].pid <= #[trigger] v@[w].pid,
        decreases v@.len() - t,
    {
        if v[t].pid < v[m].pid {
            m = t;
        }
        t = t + 1;
    }
    m
}

/// Orders records by ascending pid; the records themselves are exactly the
/// input's, as a multiset of their plain views.
pub fn sort_records(v: Vec<ProcessInfo>) -> (r: Vec<ProcessInfo>)
    ensures
        sorted_by_pid(r@),
        r@.len() == v@.len(),
        views_of(r@).to_multiset() == views_of(v@).to_multiset(),
{
    broadcast use vstd::seq_lib::group_to_multiset_ensures;

    let ghost orig = v@;
    let mut src = v;
    let mut dst: Vec<ProcessInfo> = Vec::new();
    proof {
        assert(views_of(dst@) =~= Seq::<(u32, u32, Seq<char>)>::empty());
        assert(views_of(dst@).to_multiset().add(views_of(src@).to_multiset()) =~= views_of(
            orig,
        ).to_multiset());
    }
    while src.len() > 0
        invariant
            dst@.len() + src@.len() == orig.len(),
            sorted_by_pid(dst@),
            views_of(dst@).to_multiset().add(views_of(src@).to_multiset()) == views_of(
                orig,
            ).to_multiset(),
            forall|a: int, b: int|
                #![trigger dst@[a].pid, src@[b].pid]
                0 <= a < dst@.len() && 0 <= b < src@.len() ==> dst@[a].pid <= src@[b].pid,
        decreases src@.len(),
    {
        let ghost src0 = src@;
        let ghost dst0 = dst@;
        let m = min_pid_index(&src);
        let x = src.remove(m);
        let ghost xv = info_view(x);
        dst.push(x);
        proof {
            assert(views_of(src@) =~= views_of(src0).remove(m as int));
            assert(views_of(dst@) =~= views_of(dst0).push(xv));
            assert(views_of(src0)[m as int] == xv);
            views_of(src0).to_multiset_ensures();
            views_of(dst0).to_multiset_ensures();
            assert(views_of(src0).to_multiset().count(xv) > 0) by {
                assert(views_of(src0).contains(xv));
            }
            assert(views_of(src0).remove(m as int).to_multiset() =~= views_of(
                src0,
            ).to_multiset().remove(xv));
            assert(views_of(src@).to_multiset() =~= views_of(src0).to_multiset().remove(xv));
            assert(views_of(dst0).push(xv).to_multiset() =~= views_of(dst0).to_multiset().insert(
                xv,
            ));
            assert(views_of(dst@).to_multiset() =~= views_of(dst0).to_multiset().insert(xv));
            assert(views_of(dst@).to_multiset().add(views_of(src@).to_multiset()) =~= views_of(
                dst0,
            ).to_multiset().add(views_of(src0).to_multiset()));
        }
    }
    dst
}

/// Parses every status blob and hands the records back ordered by pid.
/// Fails exactly when some blob does not parse to a record.
pub fn scan_records(blobs: &Vec<String>) -> (r: Option<Vec<ProcessInfo>>)
    ensures
        match r {
            Some(v) => {
                &&& forall|t: int| 0 <= t < blobs@.len() ==> parses_to_record(#[trigger] blobs@[t]@)
                &&& v@.len() == blobs@.len()
                &&& sorted_by_pid(v@)
                &&& views_of(v@).to_multiset() == Seq::new(
                    blobs@.len(),
                    |t: int| parsed_view(blobs@[t]@),
                ).to_multiset()
            },
            None => exists|t: int|
                0 <= t < blobs@.len() && !parses_to_record(#[trigger] blobs@[t]@),
        },
{
    let mut recs: Vec<ProcessInfo> = Vec::new();
    let mut t: usize = 0;
    proof {
        assert(views_of(recs@) =~= Seq::new(0nat, |w: int| parsed_view(blobs@[w]@)));
    }
    while t < blobs.len()
        invariant
            t <= blobs@.len(),
            recs@.len() == t,
            forall|w: int| 0 <= w < t ==> parses_to_record(#[trigger] blobs@[w]@),
            views_of(recs@) == Seq::new(t as nat, |w: int| parsed_view(blobs@[w]@)),
        decreases blobs@.len() - t,
    {
        let ghost recs0 = recs@;
        match parse_proc_stat(blobs[t].as_str()) {
            Some(info) => {
                let ghost iv = info_view(info);
                recs.push(info);
                proof {
                    assert(views_of(recs@) =~= views_of(recs0).push(iv));
                    assert(iv == parsed_view(blobs@[t as int]@));
                    assert(views_of(recs@) =~= Seq::new(
                        (t + 1) as nat,
                        |w: int| parsed_view(blobs@[w]@),
                    ));
                }
            },
            None => {
                return None;
            },
        }
        t = t + 1;
    }
    proof {
        assert(Seq::new(t as nat, |w: int| parsed_view(blobs@[w]@)) =~= Seq::new(
            blobs@.len(),
            |w: int| parsed_view(blobs@[w]@),
        ));
    }
    Some(sort_records(recs))
}

/// Whether a directory entry's name is all decimal digits, as process
/// directories are.
pub fn is_numeric_name(name: &str) -> (b: bool)
    ensures
        b == forall|t: int| 0 <= t < name@.len() ==> is_digit_char(#[trigger] name@[t]),
{
    let n = name.unicode_len();
    let mut j: usize = 0;
    while j < n
        invariant
            n == name@.len(),
            j <= n,
            forall|t: int| 0 <= t < j ==> is_digit_char(#[trigger] name@[t]),
        decreases n - j,
    {
        let cv = name.get_char(j) as u32;
        if !(cv >= 48 && cv <= 57) {
            return false;
        }
        j = j + 1;
    }
    true
}

} // verus!
