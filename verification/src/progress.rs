//! Progress reports: counters of a run as one line for machines and one for people.
use crate::text;
use crate::views;
use vstd::prelude::*;

verus! {

broadcast use {views::texts_push, views::pieces_push};

/// The counters of a run. Times are in milliseconds, sizes in mebibytes.
#[derive(Debug, Clone, Copy, Default)]
pub struct Progress {
    pub tasks: u64,
    pub resolve_ms: u64,
    pub worklist_ms: u64,
    pub cmdline_ms: u64,
    pub py_ms: u64,
    pub grd_ms: u64,
    pub dyn_ms: u64,
    pub realise_ms: u64,
    pub discover_ms: u64,
    pub update_ms: u64,
    pub update_calls: u64,
    pub adddrv_ms: u64,
    pub adddrv_calls: u64,
    pub plain_adddrv_ms: u64,
    pub plain_adddrv_calls: u64,
    pub sandbox_adddrv_ms: u64,
    pub sandbox_adddrv_calls: u64,
    pub realise_asked: u64,
    pub realise_sent: u64,
    pub nar_hits: u64,
    pub nar_sent: u64,
    pub scan_hits: u64,
    pub scan_misses: u64,
    pub declared_headers: u64,
    pub used_headers: u64,
    pub rss_mib: u64,
    pub heap_mib: Option<(u64, u64)>,
}

impl Progress {
    /// The sums that a report shows fit their type.
    pub open spec fn wf(&self) -> bool {
        &&& self.nar_hits + self.nar_sent <= u64::MAX
        &&& self.scan_hits + self.scan_misses <= u64::MAX
    }
}

/// Literal parts with numbers between them.
pub open spec fn filled(parts: Seq<Seq<char>>, nums: Seq<u64>) -> Seq<char>
    decreases nums.len(),
{
    if nums.len() == 0 || parts.len() == 0 {
        parts[0]
    } else {
        filled(parts.drop_last(), nums.drop_last()) + text::decimal(nums.last() as nat)
            + parts.last()
    }
}

/// The views of literal parts.
pub open spec fn literals(v: Seq<&str>) -> Seq<Seq<char>> {
    v.map_values(|s: &str| s@)
}

/// Literal parts with numbers between them.
fn fill(parts: &Vec<&str>, nums: &Vec<u64>) -> (r: String)
    requires
        parts@.len() == nums@.len() + 1,
    ensures
        r@ == filled(literals(parts@), nums@),
{
    let ghost ps = literals(parts@);
    let mut out = text::chars_of(parts[0]);
    assert(filled(ps.take(1), nums@.take(0)) == ps.take(1)[0]);
    for i in 0..nums.len()
        invariant
            ps == literals(parts@),
            parts@.len() == nums@.len() + 1,
            out@ == filled(ps.take(i + 1), nums@.take(i as int)),
    {
        assert(ps.take(i + 2).drop_last() =~= ps.take(i + 1));
        assert(nums@.take(i + 1).drop_last() =~= nums@.take(i as int));
        assert(ps.take(i + 2).last() == parts@[i + 1]@);
        let n = text::number(nums[i]);
        text::append(&mut out, &n);
        text::append_str(&mut out, parts[i + 1]);
    }
    assert(ps.take(ps.len() as int) =~= ps);
    assert(nums@.take(nums@.len() as int) =~= nums@);
    text::string_of(&out)
}

/// What a report says of declared headers.
pub open spec fn headers_text(declared: u64, kept: u64) -> Seq<char> {
    if declared == 0 {
        Seq::empty()
    } else if kept == 0 {
        ", hdrs SUPPRESSED (0 used / nonzero declared - disjoint sets?)"@
    } else {
        filled(
            seq![", hdrs "@, " used / "@, " declared ("@, " prunable)"@],
            seq![
                kept,
                declared,
                if declared > kept {
                    (declared - kept) as u64
                } else {
                    0
                },
            ],
        )
    }
}

/// What a report says of declared headers: nothing before any was counted, and
/// no ratio while none was used, which would read as if all were dead.
pub fn prune_line(declared: u64, kept: u64) -> (r: String)
    ensures
        r@ == headers_text(declared, kept),
{
    if declared == 0 {
        String::new()
    } else if kept == 0 {
        let c = text::chars_of(", hdrs SUPPRESSED (0 used / nonzero declared - disjoint sets?)");
        text::string_of(&c)
    } else {
        let dead: u64 = if declared > kept {
            declared - kept
        } else {
            0
        };
        let parts = vec![", hdrs ", " used / ", " declared (", " prunable)"];
        let nums = vec![kept, declared, dead];
        assert(literals(parts@) =~= seq![", hdrs "@, " used / "@, " declared ("@, " prunable)"@]);
        assert(nums@ =~= seq![kept, declared, dead]);
        fill(&parts, &nums)
    }
}

/// What a report says of the heap, where the allocator tells.
pub open spec fn heap_text(heap: Option<(u64, u64)>) -> Seq<char> {
    match heap {
        Some((live, retained)) => filled(
            seq![", heap "@, " MiB live / "@, " MiB retained"@],
            seq![live, retained],
        ),
        None => Seq::empty(),
    }
}

fn heap_line(heap: Option<(u64, u64)>) -> (r: String)
    ensures
        r@ == heap_text(heap),
{
    match heap {
        Some((live, retained)) => {
            let parts = vec![", heap ", " MiB live / ", " MiB retained"];
            let nums = vec![live, retained];
            assert(literals(parts@) =~= seq![", heap "@, " MiB live / "@, " MiB retained"@]);
            assert(nums@ =~= seq![live, retained]);
            fill(&parts, &nums)
        },
        None => String::new(),
    }
}

/// The heap in mebibytes, live and retained, from the allocator's figures in
/// bytes: blocks in use and arena, each with what was mapped besides.
pub fn heap_mib(in_use: u64, arena: u64, mapped: u64) -> (r: (u64, u64))
    requires
        in_use + mapped <= u64::MAX,
        arena + mapped <= u64::MAX,
    ensures
        r.0 == (in_use + mapped) / 1048576,
        r.1 == (arena + mapped) / 1048576,
{
    ((in_use + mapped) / 1048576, (arena + mapped) / 1048576)
}

/// The resident size that the kernel's report gives: its second word, in pages
/// of four kibibytes.
pub open spec fn resident_mib(report: Option<Seq<char>>) -> u64 {
    match report {
        Some(s) => {
            let ws = text::words(s);
            if ws.len() >= 2 {
                match text::parse_u64(ws[1]) {
                    Some(pages) => (pages as int * 4096 / 1048576) as u64,
                    None => 0,
                }
            } else {
                0
            }
        },
        None => 0,
    }
}

/// The resident size in mebibytes, given the kernel's report on the process;
/// zero where that cannot be read.
pub fn self_rss_mib(report: Option<&str>) -> (r: u64)
    ensures
        r == resident_mib(views::opt_str(report)),
{
    match report {
        Some(s) => {
            let ws = text::words_of_str(s);
            assert(views::pieces(ws@).len() == ws@.len());
            if ws.len() >= 2 {
                assert(views::pieces(ws@)[1] == ws@[1]@);
                match text::read_u64(&ws[1]) {
                    Some(pages) => {
                        assert(pages as int * 4096 / 1048576 == pages as int / 256);
                        pages / 256
                    },
                    None => 0,
                }
            } else {
                0
            }
        },
        None => 0,
    }
}

/// The line for machines.
pub open spec fn stats_text(p: Progress) -> Seq<char> {
    filled(
        seq![
            "nix-ninja-stats {\"tasks\":"@,
            ",\"resolve_ms\":"@,
            ",\"dyn_ms\":"@,
            ",\"dyn_realise_ms\":"@,
            ",\"dyn_discover_ms\":"@,
            ",\"dyn_adddrv_ms\":"@,
            ",\"dyn_adddrv_calls\":"@,
            ",\"plain_adddrv_ms\":"@,
            ",\"plain_adddrv_calls\":"@,
            ",\"sandbox_adddrv_ms\":"@,
            ",\"sandbox_adddrv_calls\":"@,
            ",\"rss_mib\":"@,
            "}"@,
        ],
        seq![
            p.tasks,
            p.resolve_ms,
            p.dyn_ms,
            p.realise_ms,
            p.discover_ms,
            p.adddrv_ms,
            p.adddrv_calls,
            p.plain_adddrv_ms,
            p.plain_adddrv_calls,
            p.sandbox_adddrv_ms,
            p.sandbox_adddrv_calls,
            p.rss_mib,
        ],
    )
}

/// The line for people. Times are in seconds.
pub open spec fn summary_text(p: Progress) -> Seq<char> {
    filled(
        seq![
            "nix-ninja: resolved "@,
            " tasks, "@,
            " s total resolve time (worklist "@,
            " s, cmdline "@,
            " s, py "@,
            " s, grd "@,
            " s), dyn "@,
            " s (realise "@,
            " s, discover "@,
            " s, update "@,
            " s/"@,
            " calls, adddrv "@,
            " s/"@,
            " calls, plain adddrv "@,
            " s/"@,
            " calls, sandbox adddrv "@,
            " s/"@,
            " calls), realise "@,
            "/"@,
            " sent, nar "@,
            "/"@,
            " sent, scan "@,
            "/"@,
            " parsed, rss "@,
            " MiB"@,
        ],
        seq![
            p.tasks,
            p.resolve_ms / 1000,
            p.worklist_ms / 1000,
            p.cmdline_ms / 1000,
            p.py_ms / 1000,
            p.grd_ms / 1000,
            p.dyn_ms / 1000,
            p.realise_ms / 1000,
            p.discover_ms / 1000,
            p.update_ms / 1000,
            p.update_calls,
            p.adddrv_ms / 1000,
            p.adddrv_calls,
            p.plain_adddrv_ms / 1000,
            p.plain_adddrv_calls,
            p.sandbox_adddrv_ms / 1000,
            p.sandbox_adddrv_calls,
            p.realise_sent,
            p.realise_asked,
            p.nar_sent,
            (p.nar_hits + p.nar_sent) as u64,
            p.scan_misses,
            (p.scan_hits + p.scan_misses) as u64,
            p.rss_mib,
        ],
    ) + heap_text(p.heap_mib) + headers_text(p.declared_headers, p.used_headers)
}

fn stats_line(p: &Progress) -> (r: String)
    ensures
        r@ == stats_text(*p),
{
    let parts = vec![
        "nix-ninja-stats {\"tasks\":",
        ",\"resolve_ms\":",
        ",\"dyn_ms\":",
        ",\"dyn_realise_ms\":",
        ",\"dyn_discover_ms\":",
        ",\"dyn_adddrv_ms\":",
        ",\"dyn_adddrv_calls\":",
        ",\"plain_adddrv_ms\":",
        ",\"plain_adddrv_calls\":",
        ",\"sandbox_adddrv_ms\":",
        ",\"sandbox_adddrv_calls\":",
        ",\"rss_mib\":",
        "}",
    ];
    let nums = vec![
        p.tasks,
        p.resolve_ms,
        p.dyn_ms,
        p.realise_ms,
        p.discover_ms,
        p.adddrv_ms,
        p.adddrv_calls,
        p.plain_adddrv_ms,
        p.plain_adddrv_calls,
        p.sandbox_adddrv_ms,
        p.sandbox_adddrv_calls,
        p.rss_mib,
    ];
    let r = fill(&parts, &nums);
    proof {
        let want = seq![
            "nix-ninja-stats {\"tasks\":"@,
            ",\"resolve_ms\":"@,
            ",\"dyn_ms\":"@,
            ",\"dyn_realise_ms\":"@,
            ",\"dyn_discover_ms\":"@,
            ",\"dyn_adddrv_ms\":"@,
            ",\"dyn_adddrv_calls\":"@,
            ",\"plain_adddrv_ms\":"@,
            ",\"plain_adddrv_calls\":"@,
            ",\"sandbox_adddrv_ms\":"@,
            ",\"sandbox_adddrv_calls\":"@,
            ",\"rss_mib\":"@,
            "}"@,
        ];
        assert(literals(parts@) =~= want);
        assert(nums@ =~= seq![
            p.tasks,
            p.resolve_ms,
            p.dyn_ms,
            p.realise_ms,
            p.discover_ms,
            p.adddrv_ms,
            p.adddrv_calls,
            p.plain_adddrv_ms,
            p.plain_adddrv_calls,
            p.sandbox_adddrv_ms,
            p.sandbox_adddrv_calls,
            p.rss_mib,
        ]);
    }
    r
}

fn summary_line(p: &Progress) -> (r: String)
    requires
        p.wf(),
    ensures
        r@ == summary_text(*p),
{
    let parts = vec![
        "nix-ninja: resolved ",
        " tasks, ",
        " s total resolve time (worklist ",
        " s, cmdline ",
        " s, py ",
        " s, grd ",
        " s), dyn ",
        " s (realise ",
        " s, discover ",
        " s, update ",
        " s/",
        " calls, adddrv ",
        " s/",
        " calls, plain adddrv ",
        " s/",
        " calls, sandbox adddrv ",
        " s/",
        " calls), realise ",
        "/",
        " sent, nar ",
        "/",
        " sent, scan ",
        "/",
        " parsed, rss ",
        " MiB",
    ];
    let nar_all: u64 = p.nar_hits + p.nar_sent;
    let scan_all: u64 = p.scan_hits + p.scan_misses;
    let nums = vec![
        p.tasks,
        p.resolve_ms / 1000,
        p.worklist_ms / 1000,
        p.cmdline_ms / 1000,
        p.py_ms / 1000,
        p.grd_ms / 1000,
        p.dyn_ms / 1000,
        p.realise_ms / 1000,
        p.discover_ms / 1000,
        p.update_ms / 1000,
        p.update_calls,
        p.adddrv_ms / 1000,
        p.adddrv_calls,
        p.plain_adddrv_ms / 1000,
        p.plain_adddrv_calls,
        p.sandbox_adddrv_ms / 1000,
        p.sandbox_adddrv_calls,
        p.realise_sent,
        p.realise_asked,
        p.nar_sent,
        nar_all,
        p.scan_misses,
        scan_all,
        p.rss_mib,
    ];
    let line = fill(&parts, &nums);
    let mut out = text::chars_of(line.as_str());
    let heap = heap_line(p.heap_mib);
    text::append_str(&mut out, heap.as_str());
    let headers = prune_line(p.declared_headers, p.used_headers);
    text::append_str(&mut out, headers.as_str());
    proof {
        let want = seq![
            "nix-ninja: resolved "@,
            " tasks, "@,
            " s total resolve time (worklist "@,
            " s, cmdline "@,
            " s, py "@,
            " s, grd "@,
            " s), dyn "@,
            " s (realise "@,
            " s, discover "@,
            " s, update "@,
            " s/"@,
            " calls, adddrv "@,
            " s/"@,
            " calls, plain adddrv "@,
            " s/"@,
            " calls, sandbox adddrv "@,
            " s/"@,
            " calls), realise "@,
            "/"@,
            " sent, nar "@,
            "/"@,
            " sent, scan "@,
            "/"@,
            " parsed, rss "@,
            " MiB"@,
        ];
        assert(literals(parts@) =~= want);
        assert(nums@ =~= seq![
            p.tasks,
            p.resolve_ms / 1000,
            p.worklist_ms / 1000,
            p.cmdline_ms / 1000,
            p.py_ms / 1000,
            p.grd_ms / 1000,
            p.dyn_ms / 1000,
            p.realise_ms / 1000,
            p.discover_ms / 1000,
            p.update_ms / 1000,
            p.update_calls,
            p.adddrv_ms / 1000,
            p.adddrv_calls,
            p.plain_adddrv_ms / 1000,
            p.plain_adddrv_calls,
            p.sandbox_adddrv_ms / 1000,
            p.sandbox_adddrv_calls,
            p.realise_sent,
            p.realise_asked,
            p.nar_sent,
            nar_all,
            p.scan_misses,
            scan_all,
            p.rss_mib,
        ]);
    }
    text::string_of(&out)
}

/// The two lines of a progress report.
pub fn report_progress(p: &Progress) -> (r: (String, String))
    requires
        p.wf(),
    ensures
        r.0@ == stats_text(*p),
        r.1@ == summary_text(*p),
{
    (stats_line(p), summary_line(p))
}

/// The report at the end of a run; none where no task was resolved.
pub fn report_progress_final(p: &Progress) -> (r: Option<(String, String)>)
    requires
        p.wf(),
    ensures
        match r {
            Some((stats, summary)) => p.tasks > 0 && stats@ == stats_text(*p) && summary@
                == summary_text(*p),
            None => p.tasks == 0,
        },
{
    if p.tasks > 0 {
        Some(report_progress(p))
    } else {
        None
    }
}

/// Whether a report is due after this many tasks.
pub fn report_due(tasks: u64) -> (r: bool)
    ensures
        r == (tasks % 500 == 0),
{
    tasks % 500 == 0
}

// ---------------------------------------------------------------------------
// Laws
// ---------------------------------------------------------------------------

/// A number more stands behind what was said, in decimal, and a part behind it.
pub proof fn numbers_stand_between_parts(parts: Seq<Seq<char>>, nums: Seq<u64>, n: u64, p: Seq<char>)
    requires
        parts.len() > 0,
    ensures
        filled(parts.push(p), nums.push(n)) == filled(parts, nums) + text::decimal(n as nat) + p,
        filled(parts, Seq::empty()) == parts[0],
{
    assert(parts.push(p).drop_last() =~= parts);
    assert(nums.push(n).drop_last() =~= nums);
}

/// Without declared headers nothing is said of them. Where none is used that is
/// said; else how many are used, how many are declared and how many could go.
pub proof fn headers_are_told(declared: u64, kept: u64)
    ensures
        headers_text(0, kept).len() == 0,
        declared > 0 ==> headers_text(declared, 0)
            == ", hdrs SUPPRESSED (0 used / nonzero declared - disjoint sets?)"@,
        declared >= kept > 0 ==> headers_text(declared, kept) == ", hdrs "@ + text::decimal(
            kept as nat,
        ) + " used / "@ + text::decimal(declared as nat) + " declared ("@ + text::decimal(
            (declared - kept) as nat,
        ) + " prunable)"@,
        kept > declared > 0 ==> headers_text(declared, kept) == ", hdrs "@ + text::decimal(
            kept as nat,
        ) + " used / "@ + text::decimal(declared as nat) + " declared ("@ + text::decimal(0)
            + " prunable)"@,
{
    let d: u64 = if declared > kept {
        (declared - kept) as u64
    } else {
        0
    };
    let a = seq![", hdrs "@];
    let b = a.push(" used / "@);
    let c = b.push(" declared ("@);
    let e = c.push(" prunable)"@);
    let none = Seq::<u64>::empty();
    numbers_stand_between_parts(a, none, kept, " used / "@);
    numbers_stand_between_parts(b, none.push(kept), declared, " declared ("@);
    numbers_stand_between_parts(c, none.push(kept).push(declared), d, " prunable)"@);
    assert(e =~= seq![", hdrs "@, " used / "@, " declared ("@, " prunable)"@]);
    assert(none.push(kept).push(declared).push(d) =~= seq![kept, declared, d]);
}

/// The heap is told where the allocator tells, what lives before what is kept.
pub proof fn the_heap_is_told(live: u64, retained: u64)
    ensures
        heap_text(None).len() == 0,
        heap_text(Some((live, retained))) == ", heap "@ + text::decimal(live as nat)
            + " MiB live / "@ + text::decimal(retained as nat) + " MiB retained"@,
{
    let a = seq![", heap "@];
    let b = a.push(" MiB live / "@);
    let c = b.push(" MiB retained"@);
    let none = Seq::<u64>::empty();
    numbers_stand_between_parts(a, none, live, " MiB live / "@);
    numbers_stand_between_parts(b, none.push(live), retained, " MiB retained"@);
    assert(c =~= seq![", heap "@, " MiB live / "@, " MiB retained"@]);
    assert(none.push(live).push(retained) =~= seq![live, retained]);
}

/// The resident size is the second number of the kernel's report, in pages of
/// four kibibytes, told in mebibytes and rounded down; a report that does not say
/// it counts as nothing.
pub proof fn pages_are_told_in_mebibytes(s: Seq<char>, pages: u64)
    ensures
        text::words(s).len() >= 2 && text::parse_u64(text::words(s)[1]) == Some(pages)
            ==> resident_mib(Some(s)) == pages as int / 256,
        text::words(s).len() < 2 ==> resident_mib(Some(s)) == 0,
        resident_mib(None) == 0,
{
    assert(pages as int * 4096 / 1048576 == pages as int / 256);
}

/// Each figure of the line for machines is the one that its name says.
pub proof fn figures_have_their_names(p: Progress)
    ensures
        stats_text(p) == "nix-ninja-stats {\"tasks\":"@ + text::decimal(p.tasks as nat)
            + ",\"resolve_ms\":"@ + text::decimal(p.resolve_ms as nat) + ",\"dyn_ms\":"@
            + text::decimal(p.dyn_ms as nat) + ",\"dyn_realise_ms\":"@ + text::decimal(
            p.realise_ms as nat,
        ) + ",\"dyn_discover_ms\":"@ + text::decimal(p.discover_ms as nat)
            + ",\"dyn_adddrv_ms\":"@ + text::decimal(p.adddrv_ms as nat)
            + ",\"dyn_adddrv_calls\":"@ + text::decimal(p.adddrv_calls as nat)
            + ",\"plain_adddrv_ms\":"@ + text::decimal(p.plain_adddrv_ms as nat)
            + ",\"plain_adddrv_calls\":"@ + text::decimal(p.plain_adddrv_calls as nat)
            + ",\"sandbox_adddrv_ms\":"@ + text::decimal(p.sandbox_adddrv_ms as nat)
            + ",\"sandbox_adddrv_calls\":"@ + text::decimal(p.sandbox_adddrv_calls as nat)
            + ",\"rss_mib\":"@ + text::decimal(p.rss_mib as nat) + "}"@,
{
    let p0 = seq!["nix-ninja-stats {\"tasks\":"@];
    let p1 = p0.push(",\"resolve_ms\":"@);
    let p2 = p1.push(",\"dyn_ms\":"@);
    let p3 = p2.push(",\"dyn_realise_ms\":"@);
    let p4 = p3.push(",\"dyn_discover_ms\":"@);
    let p5 = p4.push(",\"dyn_adddrv_ms\":"@);
    let p6 = p5.push(",\"dyn_adddrv_calls\":"@);
    let p7 = p6.push(",\"plain_adddrv_ms\":"@);
    let p8 = p7.push(",\"plain_adddrv_calls\":"@);
    let p9 = p8.push(",\"sandbox_adddrv_ms\":"@);
    let p10 = p9.push(",\"sandbox_adddrv_calls\":"@);
    let p11 = p10.push(",\"rss_mib\":"@);
    let p12 = p11.push("}"@);
    let n0 = Seq::<u64>::empty();
    let n1 = n0.push(p.tasks);
    let n2 = n1.push(p.resolve_ms);
    let n3 = n2.push(p.dyn_ms);
    let n4 = n3.push(p.realise_ms);
    let n5 = n4.push(p.discover_ms);
    let n6 = n5.push(p.adddrv_ms);
    let n7 = n6.push(p.adddrv_calls);
    let n8 = n7.push(p.plain_adddrv_ms);
    let n9 = n8.push(p.plain_adddrv_calls);
    let n10 = n9.push(p.sandbox_adddrv_ms);
    let n11 = n10.push(p.sandbox_adddrv_calls);
    let n12 = n11.push(p.rss_mib);
    numbers_stand_between_parts(p0, n0, p.tasks, ",\"resolve_ms\":"@);
    numbers_stand_between_parts(p1, n1, p.resolve_ms, ",\"dyn_ms\":"@);
    numbers_stand_between_parts(p2, n2, p.dyn_ms, ",\"dyn_realise_ms\":"@);
    numbers_stand_between_parts(p3, n3, p.realise_ms, ",\"dyn_discover_ms\":"@);
    numbers_stand_between_parts(p4, n4, p.discover_ms, ",\"dyn_adddrv_ms\":"@);
    numbers_stand_between_parts(p5, n5, p.adddrv_ms, ",\"dyn_adddrv_calls\":"@);
    numbers_stand_between_parts(p6, n6, p.adddrv_calls, ",\"plain_adddrv_ms\":"@);
    numbers_stand_between_parts(p7, n7, p.plain_adddrv_ms, ",\"plain_adddrv_calls\":"@);
    numbers_stand_between_parts(p8, n8, p.plain_adddrv_calls, ",\"sandbox_adddrv_ms\":"@);
    numbers_stand_between_parts(p9, n9, p.sandbox_adddrv_ms, ",\"sandbox_adddrv_calls\":"@);
    numbers_stand_between_parts(p10, n10, p.sandbox_adddrv_calls, ",\"rss_mib\":"@);
    numbers_stand_between_parts(p11, n11, p.rss_mib, "}"@);
    assert(p12 =~= seq![
        "nix-ninja-stats {\"tasks\":"@,
        ",\"resolve_ms\":"@,
        ",\"dyn_ms\":"@,
        ",\"dyn_realise_ms\":"@,
        ",\"dyn_discover_ms\":"@,
        ",\"dyn_adddrv_ms\":"@,
        ",\"dyn_adddrv_calls\":"@,
        ",\"plain_adddrv_ms\":"@,
        ",\"plain_adddrv_calls\":"@,
        ",\"sandbox_adddrv_ms\":"@,
        ",\"sandbox_adddrv_calls\":"@,
        ",\"rss_mib\":"@,
        "}"@,
    ]);
    assert(n12 =~= seq![
        p.tasks,
        p.resolve_ms,
        p.dyn_ms,
        p.realise_ms,
        p.discover_ms,
        p.adddrv_ms,
        p.adddrv_calls,
        p.plain_adddrv_ms,
        p.plain_adddrv_calls,
        p.sandbox_adddrv_ms,
        p.sandbox_adddrv_calls,
        p.rss_mib,
    ]);
}

/// Each figure of the line for people is the one that its words say; times are in
/// whole seconds, and what was sent stands before all that was asked for.
pub proof fn figures_have_their_words(p: Progress)
    requires
        p.wf(),
    ensures
        summary_text(p) == "nix-ninja: resolved "@
            + text::decimal(p.tasks as nat) + " tasks, "@
            + text::decimal((p.resolve_ms / 1000) as nat) + " s total resolve time (worklist "@
            + text::decimal((p.worklist_ms / 1000) as nat) + " s, cmdline "@
            + text::decimal((p.cmdline_ms / 1000) as nat) + " s, py "@
            + text::decimal((p.py_ms / 1000) as nat) + " s, grd "@
            + text::decimal((p.grd_ms / 1000) as nat) + " s), dyn "@
            + text::decimal((p.dyn_ms / 1000) as nat) + " s (realise "@
            + text::decimal((p.realise_ms / 1000) as nat) + " s, discover "@
            + text::decimal((p.discover_ms / 1000) as nat) + " s, update "@
            + text::decimal((p.update_ms / 1000) as nat) + " s/"@
            + text::decimal(p.update_calls as nat) + " calls, adddrv "@
            + text::decimal((p.adddrv_ms / 1000) as nat) + " s/"@
            + text::decimal(p.adddrv_calls as nat) + " calls, plain adddrv "@
            + text::decimal((p.plain_adddrv_ms / 1000) as nat) + " s/"@
            + text::decimal(p.plain_adddrv_calls as nat) + " calls, sandbox adddrv "@
            + text::decimal((p.sandbox_adddrv_ms / 1000) as nat) + " s/"@
            + text::decimal(p.sandbox_adddrv_calls as nat) + " calls), realise "@
            + text::decimal(p.realise_sent as nat) + "/"@
            + text::decimal(p.realise_asked as nat) + " sent, nar "@
            + text::decimal(p.nar_sent as nat) + "/"@
            + text::decimal((p.nar_hits + p.nar_sent) as nat) + " sent, scan "@
            + text::decimal(p.scan_misses as nat) + "/"@
            + text::decimal((p.scan_hits + p.scan_misses) as nat) + " parsed, rss "@
            + text::decimal(p.rss_mib as nat) + " MiB"@ + heap_text(p.heap_mib) + headers_text(
            p.declared_headers,
            p.used_headers,
        ),
{
    first_figures(p);
    next_figures(p);
    later_figures(p);
    last_figures(p);
}

proof fn first_figures(p: Progress)
    ensures
        filled(
            seq![
                "nix-ninja: resolved "@,
                " tasks, "@,
                " s total resolve time (worklist "@,
                " s, cmdline "@,
                " s, py "@,
                " s, grd "@,
                " s), dyn "@,
            ],
            seq![
                p.tasks,
                p.resolve_ms / 1000,
                p.worklist_ms / 1000,
                p.cmdline_ms / 1000,
                p.py_ms / 1000,
                p.grd_ms / 1000,
            ],
        ) == "nix-ninja: resolved "@
            + text::decimal(p.tasks as nat) + " tasks, "@
            + text::decimal((p.resolve_ms / 1000) as nat) + " s total resolve time (worklist "@
            + text::decimal((p.worklist_ms / 1000) as nat) + " s, cmdline "@
            + text::decimal((p.cmdline_ms / 1000) as nat) + " s, py "@
            + text::decimal((p.py_ms / 1000) as nat) + " s, grd "@
            + text::decimal((p.grd_ms / 1000) as nat) + " s), dyn "@,
{
    let p0 = seq![
        "nix-ninja: resolved "@,
    ];
    let n0 = Seq::<u64>::empty();
    let p1 = p0.push(" tasks, "@);
    let n1 = n0.push(p.tasks);
    numbers_stand_between_parts(p0, n0, p.tasks, " tasks, "@);
    let p2 = p1.push(" s total resolve time (worklist "@);
    let n2 = n1.push(p.resolve_ms / 1000);
    numbers_stand_between_parts(p1, n1, p.resolve_ms / 1000, " s total resolve time (worklist "@);
    let p3 = p2.push(" s, cmdline "@);
    let n3 = n2.push(p.worklist_ms / 1000);
    numbers_stand_between_parts(p2, n2, p.worklist_ms / 1000, " s, cmdline "@);
    let p4 = p3.push(" s, py "@);
    let n4 = n3.push(p.cmdline_ms / 1000);
    numbers_stand_between_parts(p3, n3, p.cmdline_ms / 1000, " s, py "@);
    let p5 = p4.push(" s, grd "@);
    let n5 = n4.push(p.py_ms / 1000);
    numbers_stand_between_parts(p4, n4, p.py_ms / 1000, " s, grd "@);
    let p6 = p5.push(" s), dyn "@);
    let n6 = n5.push(p.grd_ms / 1000);
    numbers_stand_between_parts(p5, n5, p.grd_ms / 1000, " s), dyn "@);
    assert(p6 =~= seq![
        "nix-ninja: resolved "@,
        " tasks, "@,
        " s total resolve time (worklist "@,
        " s, cmdline "@,
        " s, py "@,
        " s, grd "@,
        " s), dyn "@,
    ]);
    assert(n6 =~= seq![
        p.tasks,
        p.resolve_ms / 1000,
        p.worklist_ms / 1000,
        p.cmdline_ms / 1000,
        p.py_ms / 1000,
        p.grd_ms / 1000,
    ]);
}

proof fn next_figures(p: Progress)
    ensures
        filled(
            seq![
                "nix-ninja: resolved "@,
                " tasks, "@,
                " s total resolve time (worklist "@,
                " s, cmdline "@,
                " s, py "@,
                " s, grd "@,
                " s), dyn "@,
                " s (realise "@,
                " s, discover "@,
                " s, update "@,
                " s/"@,
                " calls, adddrv "@,
                " s/"@,
            ],
            seq![
                p.tasks,
                p.resolve_ms / 1000,
                p.worklist_ms / 1000,
                p.cmdline_ms / 1000,
                p.py_ms / 1000,
                p.grd_ms / 1000,
                p.dyn_ms / 1000,
                p.realise_ms / 1000,
                p.discover_ms / 1000,
                p.update_ms / 1000,
                p.update_calls,
                p.adddrv_ms / 1000,
            ],
        ) == filled(
            seq![
                "nix-ninja: resolved "@,
                " tasks, "@,
                " s total resolve time (worklist "@,
                " s, cmdline "@,
                " s, py "@,
                " s, grd "@,
                " s), dyn "@,
            ],
            seq![
                p.tasks,
                p.resolve_ms / 1000,
                p.worklist_ms / 1000,
                p.cmdline_ms / 1000,
                p.py_ms / 1000,
                p.grd_ms / 1000,
            ],
        )
            + text::decimal((p.dyn_ms / 1000) as nat) + " s (realise "@
            + text::decimal((p.realise_ms / 1000) as nat) + " s, discover "@
            + text::decimal((p.discover_ms / 1000) as nat) + " s, update "@
            + text::decimal((p.update_ms / 1000) as nat) + " s/"@
            + text::decimal(p.update_calls as nat) + " calls, adddrv "@
            + text::decimal((p.adddrv_ms / 1000) as nat) + " s/"@,
{
    let p6 = seq![
        "nix-ninja: resolved "@,
        " tasks, "@,
        " s total resolve time (worklist "@,
        " s, cmdline "@,
        " s, py "@,
        " s, grd "@,
        " s), dyn "@,
    ];
    let n6 = seq![
        p.tasks,
        p.resolve_ms / 1000,
        p.worklist_ms / 1000,
        p.cmdline_ms / 1000,
        p.py_ms / 1000,
        p.grd_ms / 1000,
    ];
    let p7 = p6.push(" s (realise "@);
    let n7 = n6.push(p.dyn_ms / 1000);
    numbers_stand_between_parts(p6, n6, p.dyn_ms / 1000, " s (realise "@);
    let p8 = p7.push(" s, discover "@);
    let n8 = n7.push(p.realise_ms / 1000);
    numbers_stand_between_parts(p7, n7, p.realise_ms / 1000, " s, discover "@);
    let p9 = p8.push(" s, update "@);
    let n9 = n8.push(p.discover_ms / 1000);
    numbers_stand_between_parts(p8, n8, p.discover_ms / 1000, " s, update "@);
    let p10 = p9.push(" s/"@);
    let n10 = n9.push(p.update_ms / 1000);
    numbers_stand_between_parts(p9, n9, p.update_ms / 1000, " s/"@);
    let p11 = p10.push(" calls, adddrv "@);
    let n11 = n10.push(p.update_calls);
    numbers_stand_between_parts(p10, n10, p.update_calls, " calls, adddrv "@);
    let p12 = p11.push(" s/"@);
    let n12 = n11.push(p.adddrv_ms / 1000);
    numbers_stand_between_parts(p11, n11, p.adddrv_ms / 1000, " s/"@);
    assert(p12 =~= seq![
        "nix-ninja: resolved "@,
        " tasks, "@,
        " s total resolve time (worklist "@,
        " s, cmdline "@,
        " s, py "@,
        " s, grd "@,
        " s), dyn "@,
        " s (realise "@,
        " s, discover "@,
        " s, update "@,
        " s/"@,
        " calls, adddrv "@,
        " s/"@,
    ]);
    assert(n12 =~= seq![
        p.tasks,
        p.resolve_ms / 1000,
        p.worklist_ms / 1000,
        p.cmdline_ms / 1000,
        p.py_ms / 1000,
        p.grd_ms / 1000,
        p.dyn_ms / 1000,
        p.realise_ms / 1000,
        p.discover_ms / 1000,
        p.update_ms / 1000,
        p.update_calls,
        p.adddrv_ms / 1000,
    ]);
}

proof fn later_figures(p: Progress)
    ensures
        filled(
            seq![
                "nix-ninja: resolved "@,
                " tasks, "@,
                " s total resolve time (worklist "@,
                " s, cmdline "@,
                " s, py "@,
                " s, grd "@,
                " s), dyn "@,
                " s (realise "@,
                " s, discover "@,
                " s, update "@,
                " s/"@,
                " calls, adddrv "@,
                " s/"@,
                " calls, plain adddrv "@,
                " s/"@,
                " calls, sandbox adddrv "@,
                " s/"@,
                " calls), realise "@,
                "/"@,
            ],
            seq![
                p.tasks,
                p.resolve_ms / 1000,
                p.worklist_ms / 1000,
                p.cmdline_ms / 1000,
                p.py_ms / 1000,
                p.grd_ms / 1000,
                p.dyn_ms / 1000,
                p.realise_ms / 1000,
                p.discover_ms / 1000,
                p.update_ms / 1000,
                p.update_calls,
                p.adddrv_ms / 1000,
                p.adddrv_calls,
                p.plain_adddrv_ms / 1000,
                p.plain_adddrv_calls,
                p.sandbox_adddrv_ms / 1000,
                p.sandbox_adddrv_calls,
                p.realise_sent,
            ],
        ) == filled(
            seq![
                "nix-ninja: resolved "@,
                " tasks, "@,
                " s total resolve time (worklist "@,
                " s, cmdline "@,
                " s, py "@,
                " s, grd "@,
                " s), dyn "@,
                " s (realise "@,
                " s, discover "@,
                " s, update "@,
                " s/"@,
                " calls, adddrv "@,
                " s/"@,
            ],
            seq![
                p.tasks,
                p.resolve_ms / 1000,
                p.worklist_ms / 1000,
                p.cmdline_ms / 1000,
                p.py_ms / 1000,
                p.grd_ms / 1000,
                p.dyn_ms / 1000,
                p.realise_ms / 1000,
                p.discover_ms / 1000,
                p.update_ms / 1000,
                p.update_calls,
                p.adddrv_ms / 1000,
            ],
        )
            + text::decimal(p.adddrv_calls as nat) + " calls, plain adddrv "@
            + text::decimal((p.plain_adddrv_ms / 1000) as nat) + " s/"@
            + text::decimal(p.plain_adddrv_calls as nat) + " calls, sandbox adddrv "@
            + text::decimal((p.sandbox_adddrv_ms / 1000) as nat) + " s/"@
            + text::decimal(p.sandbox_adddrv_calls as nat) + " calls), realise "@
            + text::decimal(p.realise_sent as nat) + "/"@,
{
    let p12 = seq![
        "nix-ninja: resolved "@,
        " tasks, "@,
        " s total resolve time (worklist "@,
        " s, cmdline "@,
        " s, py "@,
        " s, grd "@,
        " s), dyn "@,
        " s (realise "@,
        " s, discover "@,
        " s, update "@,
        " s/"@,
        " calls, adddrv "@,
        " s/"@,
    ];
    let n12 = seq![
        p.tasks,
        p.resolve_ms / 1000,
        p.worklist_ms / 1000,
        p.cmdline_ms / 1000,
        p.py_ms / 1000,
        p.grd_ms / 1000,
        p.dyn_ms / 1000,
        p.realise_ms / 1000,
        p.discover_ms / 1000,
        p.update_ms / 1000,
        p.update_calls,
        p.adddrv_ms / 1000,
    ];
    let p13 = p12.push(" calls, plain adddrv "@);
    let n13 = n12.push(p.adddrv_calls);
    numbers_stand_between_parts(p12, n12, p.adddrv_calls, " calls, plain adddrv "@);
    let p14 = p13.push(" s/"@);
    let n14 = n13.push(p.plain_adddrv_ms / 1000);
    numbers_stand_between_parts(p13, n13, p.plain_adddrv_ms / 1000, " s/"@);
    let p15 = p14.push(" calls, sandbox adddrv "@);
    let n15 = n14.push(p.plain_adddrv_calls);
    numbers_stand_between_parts(p14, n14, p.plain_adddrv_calls, " calls, sandbox adddrv "@);
    let p16 = p15.push(" s/"@);
    let n16 = n15.push(p.sandbox_adddrv_ms / 1000);
    numbers_stand_between_parts(p15, n15, p.sandbox_adddrv_ms / 1000, " s/"@);
    let p17 = p16.push(" calls), realise "@);
    let n17 = n16.push(p.sandbox_adddrv_calls);
    numbers_stand_between_parts(p16, n16, p.sandbox_adddrv_calls, " calls), realise "@);
    let p18 = p17.push("/"@);
    let n18 = n17.push(p.realise_sent);
    numbers_stand_between_parts(p17, n17, p.realise_sent, "/"@);
    assert(p18 =~= seq![
        "nix-ninja: resolved "@,
        " tasks, "@,
        " s total resolve time (worklist "@,
        " s, cmdline "@,
        " s, py "@,
        " s, grd "@,
        " s), dyn "@,
        " s (realise "@,
        " s, discover "@,
        " s, update "@,
        " s/"@,
        " calls, adddrv "@,
        " s/"@,
        " calls, plain adddrv "@,
        " s/"@,
        " calls, sandbox adddrv "@,
        " s/"@,
        " calls), realise "@,
        "/"@,
    ]);
    assert(n18 =~= seq![
        p.tasks,
        p.resolve_ms / 1000,
        p.worklist_ms / 1000,
        p.cmdline_ms / 1000,
        p.py_ms / 1000,
        p.grd_ms / 1000,
        p.dyn_ms / 1000,
        p.realise_ms / 1000,
        p.discover_ms / 1000,
        p.update_ms / 1000,
        p.update_calls,
        p.adddrv_ms / 1000,
        p.adddrv_calls,
        p.plain_adddrv_ms / 1000,
        p.plain_adddrv_calls,
        p.sandbox_adddrv_ms / 1000,
        p.sandbox_adddrv_calls,
        p.realise_sent,
    ]);
}

proof fn last_figures(p: Progress)
    requires
        p.wf(),
    ensures
        filled(
            seq![
                "nix-ninja: resolved "@,
                " tasks, "@,
                " s total resolve time (worklist "@,
                " s, cmdline "@,
                " s, py "@,
                " s, grd "@,
                " s), dyn "@,
                " s (realise "@,
                " s, discover "@,
                " s, update "@,
                " s/"@,
                " calls, adddrv "@,
                " s/"@,
                " calls, plain adddrv "@,
                " s/"@,
                " calls, sandbox adddrv "@,
                " s/"@,
                " calls), realise "@,
                "/"@,
                " sent, nar "@,
                "/"@,
                " sent, scan "@,
                "/"@,
                " parsed, rss "@,
                " MiB"@,
            ],
            seq![
                p.tasks,
                p.resolve_ms / 1000,
                p.worklist_ms / 1000,
                p.cmdline_ms / 1000,
                p.py_ms / 1000,
                p.grd_ms / 1000,
                p.dyn_ms / 1000,
                p.realise_ms / 1000,
                p.discover_ms / 1000,
                p.update_ms / 1000,
                p.update_calls,
                p.adddrv_ms / 1000,
                p.adddrv_calls,
                p.plain_adddrv_ms / 1000,
                p.plain_adddrv_calls,
                p.sandbox_adddrv_ms / 1000,
                p.sandbox_adddrv_calls,
                p.realise_sent,
                p.realise_asked,
                p.nar_sent,
                (p.nar_hits + p.nar_sent) as u64,
                p.scan_misses,
                (p.scan_hits + p.scan_misses) as u64,
                p.rss_mib,
            ],
        ) == filled(
            seq![
                "nix-ninja: resolved "@,
                " tasks, "@,
                " s total resolve time (worklist "@,
                " s, cmdline "@,
                " s, py "@,
                " s, grd "@,
                " s), dyn "@,
                " s (realise "@,
                " s, discover "@,
                " s, update "@,
                " s/"@,
                " calls, adddrv "@,
                " s/"@,
                " calls, plain adddrv "@,
                " s/"@,
                " calls, sandbox adddrv "@,
                " s/"@,
                " calls), realise "@,
                "/"@,
            ],
            seq![
                p.tasks,
                p.resolve_ms / 1000,
                p.worklist_ms / 1000,
                p.cmdline_ms / 1000,
                p.py_ms / 1000,
                p.grd_ms / 1000,
                p.dyn_ms / 1000,
                p.realise_ms / 1000,
                p.discover_ms / 1000,
                p.update_ms / 1000,
                p.update_calls,
                p.adddrv_ms / 1000,
                p.adddrv_calls,
                p.plain_adddrv_ms / 1000,
                p.plain_adddrv_calls,
                p.sandbox_adddrv_ms / 1000,
                p.sandbox_adddrv_calls,
                p.realise_sent,
            ],
        )
            + text::decimal(p.realise_asked as nat) + " sent, nar "@
            + text::decimal(p.nar_sent as nat) + "/"@
            + text::decimal((p.nar_hits + p.nar_sent) as nat) + " sent, scan "@
            + text::decimal(p.scan_misses as nat) + "/"@
            + text::decimal((p.scan_hits + p.scan_misses) as nat) + " parsed, rss "@
            + text::decimal(p.rss_mib as nat) + " MiB"@,
{
    let p18 = seq![
        "nix-ninja: resolved "@,
        " tasks, "@,
        " s total resolve time (worklist "@,
        " s, cmdline "@,
        " s, py "@,
        " s, grd "@,
        " s), dyn "@,
        " s (realise "@,
        " s, discover "@,
        " s, update "@,
        " s/"@,
        " calls, adddrv "@,
        " s/"@,
        " calls, plain adddrv "@,
        " s/"@,
        " calls, sandbox adddrv "@,
        " s/"@,
        " calls), realise "@,
        "/"@,
    ];
    let n18 = seq![
        p.tasks,
        p.resolve_ms / 1000,
        p.worklist_ms / 1000,
        p.cmdline_ms / 1000,
        p.py_ms / 1000,
        p.grd_ms / 1000,
        p.dyn_ms / 1000,
        p.realise_ms / 1000,
        p.discover_ms / 1000,
        p.update_ms / 1000,
        p.update_calls,
        p.adddrv_ms / 1000,
        p.adddrv_calls,
        p.plain_adddrv_ms / 1000,
        p.plain_adddrv_calls,
        p.sandbox_adddrv_ms / 1000,
        p.sandbox_adddrv_calls,
        p.realise_sent,
    ];
    let p19 = p18.push(" sent, nar "@);
    let n19 = n18.push(p.realise_asked);
    numbers_stand_between_parts(p18, n18, p.realise_asked, " sent, nar "@);
    let p20 = p19.push("/"@);
    let n20 = n19.push(p.nar_sent);
    numbers_stand_between_parts(p19, n19, p.nar_sent, "/"@);
    let p21 = p20.push(" sent, scan "@);
    let n21 = n20.push((p.nar_hits + p.nar_sent) as u64);
    numbers_stand_between_parts(p20, n20, (p.nar_hits + p.nar_sent) as u64, " sent, scan "@);
    let p22 = p21.push("/"@);
    let n22 = n21.push(p.scan_misses);
    numbers_stand_between_parts(p21, n21, p.scan_misses, "/"@);
    let p23 = p22.push(" parsed, rss "@);
    let n23 = n22.push((p.scan_hits + p.scan_misses) as u64);
    numbers_stand_between_parts(p22, n22, (p.scan_hits + p.scan_misses) as u64, " parsed, rss "@);
    let p24 = p23.push(" MiB"@);
    let n24 = n23.push(p.rss_mib);
    numbers_stand_between_parts(p23, n23, p.rss_mib, " MiB"@);
    assert(p24 =~= seq![
        "nix-ninja: resolved "@,
        " tasks, "@,
        " s total resolve time (worklist "@,
        " s, cmdline "@,
        " s, py "@,
        " s, grd "@,
        " s), dyn "@,
        " s (realise "@,
        " s, discover "@,
        " s, update "@,
        " s/"@,
        " calls, adddrv "@,
        " s/"@,
        " calls, plain adddrv "@,
        " s/"@,
        " calls, sandbox adddrv "@,
        " s/"@,
        " calls), realise "@,
        "/"@,
        " sent, nar "@,
        "/"@,
        " sent, scan "@,
        "/"@,
        " parsed, rss "@,
        " MiB"@,
    ]);
    assert(n24 =~= seq![
        p.tasks,
        p.resolve_ms / 1000,
        p.worklist_ms / 1000,
        p.cmdline_ms / 1000,
        p.py_ms / 1000,
        p.grd_ms / 1000,
        p.dyn_ms / 1000,
        p.realise_ms / 1000,
        p.discover_ms / 1000,
        p.update_ms / 1000,
        p.update_calls,
        p.adddrv_ms / 1000,
        p.adddrv_calls,
        p.plain_adddrv_ms / 1000,
        p.plain_adddrv_calls,
        p.sandbox_adddrv_ms / 1000,
        p.sandbox_adddrv_calls,
        p.realise_sent,
        p.realise_asked,
        p.nar_sent,
        (p.nar_hits + p.nar_sent) as u64,
        p.scan_misses,
        (p.scan_hits + p.scan_misses) as u64,
        p.rss_mib,
    ]);
}

} // verus!
