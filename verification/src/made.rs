//! What holds of a finished derivation: how its command, its variables, its
//! search path, its inputs and its outputs follow from the task, from the tools
//! and from what was discovered and uploaded for it.
use crate::assembly;
use crate::assembly::Forward;
use crate::command;
use crate::derivation;
use crate::derivation::DrvView;
use crate::derivation::EncodedView;
use crate::derivation::OutputKind;
use crate::derivation::StageView;
use crate::derivation::Tools;
use crate::derived;
use crate::derived::PathView;
use crate::fresh;
use crate::fresh::Fresh;
use crate::outside;
use crate::path;
use crate::rewrite;
use crate::sets;
use crate::shapes;
use crate::store;
use crate::task;
use crate::task::Task;
use crate::text;
use crate::text::Class;
use crate::views;
use vstd::prelude::*;
use vstd::utf8::encode_utf8;

verus! {

/// What a derivation is made of: the tools and the task with its command and
/// compiler; the maps between output paths and their stand-ins; the variables to
/// forward; the encoded inputs; what was discovered; the uploads that took
/// places; and what was asked of the store in the end.
pub struct Making {
    pub tools: Tools,
    pub t: Task,
    pub cmdline: Seq<char>,
    pub cc: Seq<char>,
    pub rewrite_map: Seq<(Seq<char>, Seq<char>)>,
    pub restore: Seq<(Seq<char>, Seq<char>)>,
    pub assumed: bool,
    pub forwards: Seq<Forward>,
    pub inputs: Seq<EncodedView>,
    pub dirs: Seq<Seq<char>>,
    pub store_paths: Seq<Seq<char>>,
    pub found: Seq<EncodedView>,
    pub fresh: Seq<Fresh>,
    pub meta: Option<Seq<char>>,
    pub texts: Seq<Seq<char>>,
    pub placeholders: Seq<Seq<char>>,
    pub extra: Seq<Seq<char>>,
}

/// The stage before uploads take places.
pub open spec fn discovered(m: Making) -> StageView {
    derivation::with_new_inputs(
        derivation::with_store_paths(
            derivation::with_dotdot(
                assembly::gathered(
                    m.tools,
                    m.t,
                    m.cmdline,
                    m.cc,
                    (m.rewrite_map, m.restore),
                    m.assumed,
                    m.forwards,
                    m.inputs,
                ),
                m.t.build_dir@,
                m.dirs,
            ),
            m.store_paths,
        ),
        m.found,
    )
}

/// The finished derivation.
pub open spec fn made(m: Making) -> DrvView {
    assembly::finished(
        assembly::closed(fresh::all_replaced(discovered(m), m.fresh), m.t, m.meta, m.texts),
        m.tools,
        m.t,
        m.cc,
        m.rewrite_map,
        derivation::all_outputs(m.t, m.meta),
        m.placeholders,
        m.extra,
    )
}

/// A variable is none of those that the driver itself sets.
pub open spec fn is_free(k: Seq<char>) -> bool {
    &&& k != "PATH"@
    &&& k != "passAsFile"@
    &&& !"NIX_NINJA_"@.is_prefix_of(k)
}

/// No variable of that name is forwarded.
pub open spec fn not_forwarded(m: Making, k: Seq<char>) -> bool {
    forall|i: int| 0 <= i < m.forwards.len() ==> (#[trigger] m.forwards[i]).0 != k
}

/// A value with the real output paths put back, where the task keeps them.
pub open spec fn kept_value(m: Making, v: Seq<char>) -> Seq<char> {
    if derivation::is_lto(m.t, m.cmdline, m.assumed) {
        rewrite::rewritten(v, m.restore)
    } else {
        v
    }
}

proof fn inputs_change_nothing_else(s: StageView, es: Seq<EncodedView>)
    ensures
        derivation::with_inputs(s, es).drv.env == s.drv.env,
        derivation::with_inputs(s, es).drv.args == s.drv.args,
        derivation::with_inputs(s, es).drv.name == s.drv.name,
        derivation::with_inputs(s, es).drv.platform == s.drv.platform,
        derivation::with_inputs(s, es).drv.builder == s.drv.builder,
        derivation::with_new_inputs(s, es).drv.env == s.drv.env,
        derivation::with_new_inputs(s, es).drv.args == s.drv.args,
        derivation::with_new_inputs(s, es).drv.name == s.drv.name,
        derivation::with_new_inputs(s, es).drv.platform == s.drv.platform,
        derivation::with_new_inputs(s, es).drv.builder == s.drv.builder,
    decreases es.len(),
{
    if es.len() > 0 {
        inputs_change_nothing_else(s, es.drop_last());
    }
}

proof fn fresh_changes_nothing_else(s: StageView, fs: Seq<Fresh>)
    ensures
        fresh::all_replaced(s, fs).drv.env == s.drv.env,
        fresh::all_replaced(s, fs).drv.args == s.drv.args,
        fresh::all_replaced(s, fs).drv.name == s.drv.name,
        fresh::all_replaced(s, fs).drv.platform == s.drv.platform,
        fresh::all_replaced(s, fs).drv.builder == s.drv.builder,
    decreases fs.len(),
{
    if fs.len() > 0 {
        fresh_changes_nothing_else(s, fs.drop_last());
    }
}

proof fn forwarding_keeps(s: StageView, store_dir: Seq<char>, ps: Seq<Forward>, k: Seq<char>)
    requires
        forall|i: int| 0 <= i < ps.len() ==> (#[trigger] ps[i]).0 != k,
    ensures
        ({
            let r = assembly::all_forwarded(s, store_dir, ps);
            &&& r.drv.env.contains_key(k) == s.drv.env.contains_key(k)
            &&& r.drv.env[k] == s.drv.env[k]
        }),
    decreases ps.len(),
{
    if ps.len() > 0 {
        let front = ps.drop_last();
        assert forall|i: int| 0 <= i < front.len() implies (#[trigger] front[i]).0 != k by {
            assert(front[i] == ps[i]);
        }
        forwarding_keeps(s, store_dir, front, k);
        assert(ps[ps.len() - 1].0 != k);
    }
}

proof fn forwarding_changes_nothing_else(s: StageView, store_dir: Seq<char>, ps: Seq<Forward>)
    ensures
        ({
            let r = assembly::all_forwarded(s, store_dir, ps);
            &&& r.drv.args == s.drv.args
            &&& r.drv.name == s.drv.name
            &&& r.drv.platform == s.drv.platform
            &&& r.drv.builder == s.drv.builder
        }),
    decreases ps.len(),
{
    if ps.len() > 0 {
        forwarding_changes_nothing_else(s, store_dir, ps.drop_last());
    }
}

/// The stage that a task's derivation begins with.
spec fn first(m: Making) -> StageView {
    derivation::begun(
        m.tools.nix_ninja_task@,
        m.t,
        m.cmdline,
        m.rewrite_map,
        m.restore,
        m.assumed,
    )
}

/// A free variable stands in the finished derivation as it does once the
/// variables are forwarded.
proof fn free_variables_stay(m: Making, k: Seq<char>)
    requires
        is_free(k),
    ensures
        ({
            let s = assembly::all_forwarded(first(m), m.t.store_dir@, m.forwards);
            &&& made(m).env.contains_key(k) == s.drv.env.contains_key(k)
            &&& made(m).env[k] == s.drv.env[k]
            &&& made(m).name == s.drv.name
            &&& made(m).platform == s.drv.platform
            &&& made(m).builder == s.drv.builder
            &&& s.drv.args.is_prefix_of(made(m).args)
        }),
{
    reveal_strlit("NIX_NINJA_");
    reveal_strlit("NIX_NINJA_INPUTS");
    reveal_strlit("NIX_NINJA_OUTPUTS");
    reveal_strlit("NIX_NINJA_ALIASES");
    reveal_strlit("NIX_NINJA_EMPTY_DIRS");
    reveal_strlit("NIX_NINJA_VERBOSE_LOG");
    reveal_strlit("NIX_NINJA_DEPFILE");
    reveal_strlit("NIX_NINJA_MKDIRS");
    reveal_strlit("NIX_NINJA_RSPFILE_PATH");
    reveal_strlit("NIX_NINJA_RSPFILE_CONTENT");
    let p = "NIX_NINJA_"@;
    assert(p.is_prefix_of("NIX_NINJA_INPUTS"@));
    assert(p.is_prefix_of("NIX_NINJA_OUTPUTS"@));
    assert(p.is_prefix_of("NIX_NINJA_ALIASES"@));
    assert(p.is_prefix_of("NIX_NINJA_EMPTY_DIRS"@));
    assert(p.is_prefix_of("NIX_NINJA_VERBOSE_LOG"@));
    assert(p.is_prefix_of("NIX_NINJA_DEPFILE"@));
    assert(p.is_prefix_of("NIX_NINJA_MKDIRS"@));
    assert(p.is_prefix_of("NIX_NINJA_RSPFILE_PATH"@));
    assert(p.is_prefix_of("NIX_NINJA_RSPFILE_CONTENT"@));
    let s = assembly::all_forwarded(first(m), m.t.store_dir@, m.forwards);
    let with_sources = StageView {
        drv: DrvView {
            inputs: derivation::with_sources(s.drv.inputs, m.t, m.tools, m.cc),
            ..s.drv
        },
        ..s
    };
    inputs_change_nothing_else(with_sources, m.inputs);
    let gathered = derivation::with_inputs(with_sources, m.inputs);
    let with_dirs = derivation::with_dotdot(gathered, m.t.build_dir@, m.dirs);
    let with_paths = derivation::with_store_paths(with_dirs, m.store_paths);
    inputs_change_nothing_else(with_paths, m.found);
    fresh_changes_nothing_else(discovered(m), m.fresh);
    assert(with_dirs.drv.env[k] == s.drv.env[k]);
    assert(with_dirs.drv.env.contains_key(k) == s.drv.env.contains_key(k));
}

/// The hexadecimal digit of a number below sixteen, in lower case.
pub open spec fn shows(c: char, n: int) -> bool {
    ||| 0 <= n < 10 && c as int == '0' as int + n
    ||| 10 <= n < 16 && c as int == 'a' as int + (n - 10)
}

/// Each byte is two digits, the higher first.
proof fn hex_shows(bytes: Seq<u8>)
    ensures
        command::hex(bytes).len() == 2 * bytes.len(),
        forall|i: int|
            0 <= i < bytes.len() ==> shows(
                command::hex(bytes)[2 * i],
                #[trigger] bytes[i] as int / 16,
            ) && shows(command::hex(bytes)[2 * i + 1], bytes[i] as int % 16),
    decreases bytes.len(),
{
    if bytes.len() > 0 {
        let front = bytes.drop_last();
        hex_shows(front);
        reveal_strlit("0123456789abcdef");
        let b = bytes.last() as int;
        assert(0 <= b / 16 < 16 && 0 <= b % 16 < 16) by (nonlinear_arith)
            requires
                0 <= b < 256,
        ;
        assert forall|i: int| 0 <= i < bytes.len() implies shows(
            command::hex(bytes)[2 * i],
            #[trigger] bytes[i] as int / 16,
        ) && shows(command::hex(bytes)[2 * i + 1], bytes[i] as int % 16) by {
            if i < front.len() {
                assert(front[i] == bytes[i]);
            }
        }
    }
}

/// The compiler's flags end in a random seed of the derivation's own command:
/// behind the flags stand sixteen digits, which show the first eight bytes of
/// the SHA-256 digest of the builder's first argument.
pub proof fn seed_is_of_the_command(m: Making, k: Seq<char>)
    requires
        "NIX_CFLAGS_COMPILE"@.is_prefix_of(k),
        m.t.wrapper_vars@.contains_key(k),
        not_forwarded(m, k),
        outside::sha256(encode_utf8(made(m).args[0])).len() == 32,
    ensures
        ({
            let v = kept_value(m, m.t.wrapper_vars@[k]) + " -frandom-seed="@;
            let digest = outside::sha256(encode_utf8(made(m).args[0]));
            let value = made(m).env[k];
            &&& made(m).args.len() > 0
            &&& made(m).env.contains_key(k)
            &&& value.len() == v.len() + 16
            &&& v.is_prefix_of(value)
            &&& forall|i: int|
                0 <= i < 8 ==> shows(value[v.len() + 2 * i], #[trigger] digest[i] as int / 16)
                    && shows(value[v.len() + 2 * i + 1], digest[i] as int % 16)
        }),
{
    reveal_strlit("NIX_CFLAGS_COMPILE");
    reveal_strlit("NIX_NINJA_");
    reveal_strlit("PATH");
    reveal_strlit("passAsFile");
    let c = "NIX_CFLAGS_COMPILE"@;
    assert(k[4] == c[4] && k[0] == c[0]);
    assert("NIX_NINJA_"@[4] == 'N');
    free_variables_stay(m, k);
    forwarding_keeps(first(m), m.t.store_dir@, m.forwards, k);
    forwarding_changes_nothing_else(first(m), m.t.store_dir@, m.forwards);
    let cmd = first(m).cmdline;
    assert(first(m).drv.args[0] == cmd);
    assert(made(m).args[0] == cmd);
    let digest = outside::sha256(encode_utf8(cmd));
    let v = kept_value(m, m.t.wrapper_vars@[k]) + " -frandom-seed="@;
    assert(made(m).env[k] == v + command::hex(digest.take(8)));
    hex_shows(digest.take(8));
    let value = made(m).env[k];
    assert forall|i: int| 0 <= i < 8 implies shows(
        value[v.len() + 2 * i],
        #[trigger] digest[i] as int / 16,
    ) && shows(value[v.len() + 2 * i + 1], digest[i] as int % 16) by {
        assert(digest.take(8)[i] == digest[i]);
    }
}

/// Two derivations with one and the same value of the flags have different
/// seeds, where the digests of their commands differ in their first eight bytes.
pub proof fn different_commands_have_different_seeds(a: Making, b: Making, k: Seq<char>)
    requires
        "NIX_CFLAGS_COMPILE"@.is_prefix_of(k),
        a.t.wrapper_vars@.contains_key(k),
        b.t.wrapper_vars@.contains_key(k),
        kept_value(a, a.t.wrapper_vars@[k]) == kept_value(b, b.t.wrapper_vars@[k]),
        not_forwarded(a, k),
        not_forwarded(b, k),
        outside::sha256(encode_utf8(made(a).args[0])).len() == 32,
        outside::sha256(encode_utf8(made(b).args[0])).len() == 32,
        outside::sha256(encode_utf8(made(a).args[0])).take(8) != outside::sha256(
            encode_utf8(made(b).args[0]),
        ).take(8),
    ensures
        made(a).env[k] != made(b).env[k],
{
    seed_is_of_the_command(a, k);
    seed_is_of_the_command(b, k);
    let da = outside::sha256(encode_utf8(made(a).args[0]));
    let db = outside::sha256(encode_utf8(made(b).args[0]));
    if made(a).env[k] == made(b).env[k] {
        assert forall|i: int| 0 <= i < 8 implies da.take(8)[i] == db.take(8)[i] by {
            assert(da[i] as int / 16 == db[i] as int / 16);
            assert(da[i] as int % 16 == db[i] as int % 16);
        }
        assert(da.take(8) =~= db.take(8));
    }
}

/// The derivation runs the task's command: as it is, where the task keeps the
/// real output paths, and with their stand-ins otherwise. What it is called, for
/// which system it is and who builds it do not depend on the command.
pub proof fn the_command_is_run(m: Making)
    ensures
        made(m).args.len() > 0,
        made(m).args[0] == if derivation::is_lto(m.t, m.cmdline, m.assumed) {
            m.cmdline
        } else {
            rewrite::rewritten(m.cmdline, m.rewrite_map)
        },
        m.t.desc matches Some(d) ==> made(m).args.len() > 1 && made(m).args[1] == "--description="@
            + d@,
        made(m).name == "ninja-build"@,
        made(m).platform == m.t.system@,
        made(m).builder == m.tools.nix_ninja_task@ + "/bin/nix-ninja-task"@,
{
    reveal_strlit("NIX_NINJA_");
    reveal_strlit("PATH");
    reveal_strlit("passAsFile");
    reveal_strlit("x");
    assert("x"@[0] == 'x');
    assert(is_free("x"@)) by {
        assert("x"@.len() == 1);
    }
    free_variables_stay(m, "x"@);
    forwarding_changes_nothing_else(first(m), m.t.store_dir@, m.forwards);
    assert(first(m).drv.args.is_prefix_of(made(m).args));
    assert(made(m).args[0] == first(m).drv.args[0]);
    if m.t.desc is Some {
        assert(made(m).args[1] == first(m).drv.args[1]);
    }
}

/// A wrapper variable that names no compiler flags stands in the derivation as
/// it was, with the real output paths put back where the task keeps them.
pub proof fn other_wrapper_variables_are_kept(m: Making, k: Seq<char>)
    requires
        is_free(k),
        !"NIX_CFLAGS_COMPILE"@.is_prefix_of(k),
        m.t.wrapper_vars@.contains_key(k),
        not_forwarded(m, k),
    ensures
        made(m).env.contains_key(k),
        made(m).env[k] == kept_value(m, m.t.wrapper_vars@[k]),
{
    free_variables_stay(m, k);
    forwarding_keeps(first(m), m.t.store_dir@, m.forwards, k);
}

proof fn last_forward_stands(s: StageView, store_dir: Seq<char>, ps: Seq<Forward>, i: int)
    requires
        0 <= i < ps.len(),
        forall|j: int| i < j < ps.len() ==> (#[trigger] ps[j]).0 != ps[i].0,
    ensures
        assembly::all_forwarded(s, store_dir, ps).drv.env.contains_key(ps[i].0),
        assembly::all_forwarded(s, store_dir, ps).drv.env[ps[i].0] == ps[i].1->0,
    decreases ps.len(),
{
    if i < ps.len() - 1 {
        let front = ps.drop_last();
        assert forall|j: int| i < j < front.len() implies (#[trigger] front[j]).0 != front[i].0 by {
            assert(front[j] == ps[j]);
        }
        last_forward_stands(s, store_dir, front, i);
        assert(ps[ps.len() - 1].0 != ps[i].0);
    }
}

/// A variable that is forwarded stands in the derivation with its value, the
/// last of a name over the others, and over a wrapper variable of that name.
pub proof fn forwarded_variables_are_set(m: Making, i: int)
    requires
        0 <= i < m.forwards.len(),
        is_free(m.forwards[i].0),
        forall|j: int| i < j < m.forwards.len() ==> (#[trigger] m.forwards[j]).0
            != m.forwards[i].0,
    ensures
        made(m).env.contains_key(m.forwards[i].0),
        made(m).env[m.forwards[i].0] == m.forwards[i].1->0,
{
    free_variables_stay(m, m.forwards[i].0);
    last_forward_stands(first(m), m.t.store_dir@, m.forwards, i);
}

/// Nothing else is in the environment: a free variable is a wrapper variable or
/// a forwarded one.
pub proof fn no_variable_is_made_up(m: Making, k: Seq<char>)
    requires
        is_free(k),
        not_forwarded(m, k),
    ensures
        made(m).env.contains_key(k) == m.t.wrapper_vars@.contains_key(k),
{
    free_variables_stay(m, k);
    forwarding_keeps(first(m), m.t.store_dir@, m.forwards, k);
}

/// The directories that are searched for programs, in their order: those of the
/// shell, of the compiler, of the basic tools and of patchelf, then those of the
/// tools of scripts and of the packages that the command needs besides.
pub proof fn search_path_is_of_the_tools(m: Making)
    requires
        !m.tools.bash@.contains(':'),
        !m.cc.contains(':'),
        !m.tools.coreutils@.contains(':'),
        !m.tools.patchelf@.contains(':'),
        forall|i: int|
            0 <= i < m.tools.script_tools@.len() ==> !(#[trigger] m.tools.script_tools@[i])@.contains(
                ':',
            ),
        forall|i: int| 0 <= i < m.extra.len() ==> !(#[trigger] m.extra[i]).contains(':'),
    ensures
        made(m).env.contains_key("PATH"@),
        ({
            let dirs = text::split(made(m).env["PATH"@], Class::Only(':'));
            let n = m.tools.script_tools@.len();
            &&& dirs.len() == 4 + n + m.extra.len()
            &&& dirs[0] == m.tools.bash@ + "/bin"@
            &&& dirs[1] == m.cc + "/bin"@
            &&& dirs[2] == m.tools.coreutils@ + "/bin"@
            &&& dirs[3] == m.tools.patchelf@ + "/bin"@
            &&& forall|i: int|
                0 <= i < n ==> dirs[4 + i] == (#[trigger] m.tools.script_tools@[i])@ + "/bin"@
            &&& forall|i: int|
                0 <= i < m.extra.len() ==> dirs[4 + n + i] == #[trigger] m.extra[i] + "/bin"@
        }),
{
    let ps = derivation::search_packages(m.tools, m.cc, m.extra);
    let bins = ps.map_values(|p: Seq<char>| derivation::bin_of(p));
    let n = m.tools.script_tools@.len() as int;
    reveal_strlit("/bin");
    reveal_strlit(":");
    assert(":"@ =~= seq![':']);
    assert(ps.len() == 4 + n + m.extra.len());
    assert forall|i: int| 0 <= i < bins.len() implies !(#[trigger] bins[i]).contains(':') by {
        let p = ps[i];
        assert(!p.contains(':')) by {
            if 4 <= i < 4 + n {
                assert(p == m.tools.script_tools@[i - 4]@);
            } else if 4 + n <= i {
                assert(p == m.extra[i - 4 - n]);
            }
        }
        assert(bins[i] == p + "/bin"@);
        if bins[i].contains(':') {
            let j = choose|j: int| 0 <= j < bins[i].len() && bins[i][j] == ':';
            if j < p.len() {
                assert(p[j] == ':');
            }
        }
    }
    path::split_of_join(bins, ':');
    assert(made(m).env["PATH"@] == text::join(bins, ":"@));
    assert forall|i: int| 0 <= i < n implies bins[4 + i] == (#[trigger] m.tools.script_tools@[i])@
        + "/bin"@ by {
        assert(ps[4 + i] == m.tools.script_tools@[i]@);
    }
    assert forall|i: int| 0 <= i < m.extra.len() implies bins[4 + n + i] == #[trigger] m.extra[i]
        + "/bin"@ by {
        assert(ps[4 + n + i] == m.extra[i]);
    }
}

proof fn opaque_ones(s: Set<PathView>, ps: Seq<Seq<char>>)
    ensures
        forall|p: PathView| #[trigger]
            sets::with_opaque(s, ps).contains(p) <==> s.contains(p) || exists|i: int|
                0 <= i < ps.len() && p == derived::opaque_path(#[trigger] ps[i]),
    decreases ps.len(),
{
    if ps.len() > 0 {
        let f = ps.drop_last();
        opaque_ones(s, f);
        assert forall|p: PathView| #[trigger] sets::with_opaque(s, ps).contains(p) <==> s.contains(
            p,
        ) || exists|i: int| 0 <= i < ps.len() && p == derived::opaque_path(#[trigger] ps[i]) by {
            let before = sets::with_opaque(s, f).contains(p);
            assert(sets::with_opaque(s, ps).contains(p) == (before || p == derived::opaque_path(
                ps.last(),
            )));
            if exists|i: int| 0 <= i < ps.len() && p == derived::opaque_path(#[trigger] ps[i]) {
                let i = choose|i: int|
                    0 <= i < ps.len() && p == derived::opaque_path(#[trigger] ps[i]);
                if i < f.len() {
                    assert(f[i] == ps[i]);
                }
            }
            if exists|i: int| 0 <= i < f.len() && p == derived::opaque_path(#[trigger] f[i]) {
                let i = choose|i: int| 0 <= i < f.len() && p == derived::opaque_path(#[trigger] f[i]);
                assert(ps[i] == f[i]);
            }
            if p == derived::opaque_path(ps.last()) {
                assert(p == derived::opaque_path(ps[ps.len() - 1]));
            }
        }
    }
}

/// The inputs before uploads take places.
proof fn inputs_so_far(m: Making, p: PathView)
    ensures
        assembly::all_forwarded(first(m), m.t.store_dir@, m.forwards).drv.inputs.contains(p)
            ==> discovered(m).drv.inputs.contains(p),
        (exists|i: int|
            0 <= i < m.t.input_srcs@.len() && p == derived::opaque_path(
                (#[trigger] m.t.input_srcs@[i])@,
            )) ==> discovered(m).drv.inputs.contains(p),
        (exists|i: int|
            0 <= i < m.tools.script_tools@.len() && p == derived::opaque_path(
                (#[trigger] m.tools.script_tools@[i])@,
            )) ==> discovered(m).drv.inputs.contains(p),
        p == derived::opaque_path(m.tools.bash@) || p == derived::opaque_path(m.cc) || p
            == derived::opaque_path(m.tools.coreutils@) || p == derived::opaque_path(
            m.tools.nix_ninja_task@,
        ) || p == derived::opaque_path(m.tools.patchelf@) ==> discovered(m).drv.inputs.contains(p),
        (exists|i: int|
            0 <= i < m.store_paths.len() && p == derived::opaque_path(#[trigger] m.store_paths[i]))
            ==> discovered(m).drv.inputs.contains(p),
        (exists|i: int|
            0 <= i < m.inputs.len() && p == (#[trigger] m.inputs[i]).file.derived_path)
            ==> discovered(m).drv.inputs.contains(p),
{
    let s = assembly::all_forwarded(first(m), m.t.store_dir@, m.forwards);
    let srcs = views::texts(m.t.input_srcs@);
    let tools = views::texts(m.tools.script_tools@);
    let a = sets::with_opaque(s.drv.inputs, srcs);
    opaque_ones(s.drv.inputs, srcs);
    let b = a.insert(derived::opaque_path(m.tools.bash@)).insert(
        derived::opaque_path(m.cc),
    ).insert(derived::opaque_path(m.tools.coreutils@)).insert(
        derived::opaque_path(m.tools.nix_ninja_task@),
    ).insert(derived::opaque_path(m.tools.patchelf@));
    opaque_ones(b, tools);
    let all = derivation::with_sources(s.drv.inputs, m.t, m.tools, m.cc);
    let st = StageView { drv: DrvView { inputs: all, ..s.drv }, ..s };
    let g = derivation::with_inputs(st, m.inputs);
    if all.contains(p) {
        derivation::inputs_grow(st, m.inputs, p);
    }
    let d = derivation::with_dotdot(g, m.t.build_dir@, m.dirs);
    opaque_ones(d.drv.inputs, m.store_paths);
    let w = derivation::with_store_paths(d, m.store_paths);
    if exists|i: int| 0 <= i < m.inputs.len() && p == (#[trigger] m.inputs[i]).file.derived_path {
        let i = choose|i: int|
            0 <= i < m.inputs.len() && p == (#[trigger] m.inputs[i]).file.derived_path;
        derivation::told_of_inputs(st, m.inputs, i);
    }
    if exists|i: int|
        0 <= i < m.t.input_srcs@.len() && p == derived::opaque_path((#[trigger] m.t.input_srcs@[i])@) {
        let i = choose|i: int|
            0 <= i < m.t.input_srcs@.len() && p == derived::opaque_path(
                (#[trigger] m.t.input_srcs@[i])@,
            );
        assert(srcs[i] == m.t.input_srcs@[i]@);
        assert(a.contains(p));
        assert(all.contains(p));
        derivation::inputs_grow(st, m.inputs, p);
    }
    if exists|i: int|
        0 <= i < m.tools.script_tools@.len() && p == derived::opaque_path(
            (#[trigger] m.tools.script_tools@[i])@,
        ) {
        let i = choose|i: int|
            0 <= i < m.tools.script_tools@.len() && p == derived::opaque_path(
                (#[trigger] m.tools.script_tools@[i])@,
            );
        assert(tools[i] == m.tools.script_tools@[i]@);
        assert(all.contains(p));
        derivation::inputs_grow(st, m.inputs, p);
    }
    if w.drv.inputs.contains(p) {
        derivation::inputs_grow(w, m.found, p);
    }
}

/// Everything that a task needs is an input of its derivation: the shell, the
/// compiler and the other tools, what its command mentions, the store paths that
/// were discovered, its declared inputs and the packages of its search path.
pub proof fn everything_needed_is_an_input(m: Making)
    requires
        m.fresh.len() == 0,
    ensures
        ({
            let all = made(m).inputs;
            &&& all.contains(derived::opaque_path(m.tools.bash@))
            &&& all.contains(derived::opaque_path(m.cc))
            &&& all.contains(derived::opaque_path(m.tools.coreutils@))
            &&& all.contains(derived::opaque_path(m.tools.nix_ninja_task@))
            &&& all.contains(derived::opaque_path(m.tools.patchelf@))
            &&& forall|i: int|
                0 <= i < m.tools.script_tools@.len() ==> all.contains(
                    derived::opaque_path((#[trigger] m.tools.script_tools@[i])@),
                )
            &&& forall|i: int|
                0 <= i < m.t.input_srcs@.len() ==> all.contains(
                    derived::opaque_path((#[trigger] m.t.input_srcs@[i])@),
                )
            &&& forall|i: int|
                0 <= i < m.store_paths.len() ==> all.contains(
                    derived::opaque_path(#[trigger] m.store_paths[i]),
                )
            &&& forall|i: int|
                0 <= i < m.inputs.len() ==> all.contains(
                    (#[trigger] m.inputs[i]).file.derived_path,
                )
            &&& forall|i: int|
                0 <= i < m.extra.len() ==> all.contains(derived::opaque_path(#[trigger] m.extra[i]))
        }),
{
    let all = made(m).inputs;
    opaque_ones(discovered(m).drv.inputs, m.extra);
    assert(all == sets::with_opaque(discovered(m).drv.inputs, m.extra));
    inputs_so_far(m, derived::opaque_path(m.tools.bash@));
    inputs_so_far(m, derived::opaque_path(m.cc));
    inputs_so_far(m, derived::opaque_path(m.tools.coreutils@));
    inputs_so_far(m, derived::opaque_path(m.tools.nix_ninja_task@));
    inputs_so_far(m, derived::opaque_path(m.tools.patchelf@));
    assert forall|i: int| 0 <= i < m.tools.script_tools@.len() implies all.contains(
        derived::opaque_path((#[trigger] m.tools.script_tools@[i])@),
    ) by {
        inputs_so_far(m, derived::opaque_path(m.tools.script_tools@[i]@));
    }
    assert forall|i: int| 0 <= i < m.t.input_srcs@.len() implies all.contains(
        derived::opaque_path((#[trigger] m.t.input_srcs@[i])@),
    ) by {
        inputs_so_far(m, derived::opaque_path(m.t.input_srcs@[i]@));
    }
    assert forall|i: int| 0 <= i < m.store_paths.len() implies all.contains(
        derived::opaque_path(#[trigger] m.store_paths[i]),
    ) by {
        inputs_so_far(m, derived::opaque_path(m.store_paths[i]));
    }
    assert forall|i: int| 0 <= i < m.inputs.len() implies all.contains(
        (#[trigger] m.inputs[i]).file.derived_path,
    ) by {
        inputs_so_far(m, m.inputs[i].file.derived_path);
    }
}

proof fn forwarded_objects(
    s: StageView,
    store_dir: Seq<char>,
    ps: Seq<Forward>,
    i: int,
    o: Seq<char>,
)
    requires
        0 <= i < ps.len(),
        store::object_of(store_dir, ps[i].1->0) == Some(o),
    ensures
        assembly::all_forwarded(s, store_dir, ps).drv.inputs.contains(derived::opaque_path(o)),
    decreases ps.len(),
{
    if i < ps.len() - 1 {
        forwarded_objects(s, store_dir, ps.drop_last(), i, o);
    }
}

/// A variable that is forwarded brings the store object that it leads to.
pub proof fn forwarded_variables_bring_their_object(m: Making, i: int, o: Seq<char>)
    requires
        m.fresh.len() == 0,
        0 <= i < m.forwards.len(),
        store::object_of(m.t.store_dir@, m.forwards[i].1->0) == Some(o),
    ensures
        made(m).inputs.contains(derived::opaque_path(o)),
{
    forwarded_objects(first(m), m.t.store_dir@, m.forwards, i, o);
    inputs_so_far(m, derived::opaque_path(o));
    opaque_ones(discovered(m).drv.inputs, m.extra);
}

/// An upload that took a place is an input of the derivation.
pub proof fn the_last_upload_is_an_input(m: Making)
    requires
        m.fresh.len() > 0,
    ensures
        made(m).inputs.contains(m.fresh.last().1.file.derived_path),
{
    opaque_ones(fresh::all_replaced(discovered(m), m.fresh).drv.inputs, m.extra);
}

/// Every output of the derivation is built as an archive under the store name of
/// its path, in the order in which the task is told of them.
pub proof fn outputs_have_their_store_names(m: Making, i: int)
    requires
        0 <= i < derivation::all_outputs(m.t, m.meta).len(),
    ensures
        made(m).outputs.len() == derivation::all_outputs(m.t, m.meta).len(),
        made(m).outputs[i].0 == shapes::store_name(derivation::all_outputs(m.t, m.meta)[i]),
        made(m).outputs[i].1 == OutputKind::Archive,
{
}

/// The task is told of its inputs and outputs one by one; of its outputs by what
/// stands for the store path, by its place and by where it lies in the store.
pub proof fn inputs_and_outputs_are_told(m: Making, i: int)
    requires
        m.placeholders.len() == derivation::all_outputs(m.t, m.meta).len(),
        0 <= i < m.placeholders.len(),
    ensures
        ({
            let env = made(m).env;
            let p = derivation::all_outputs(m.t, m.meta)[i];
            let told = derivation::output_texts(
                m.placeholders,
                derivation::all_outputs(m.t, m.meta),
            );
            &&& env.contains_key("NIX_NINJA_INPUTS"@)
            &&& env["NIX_NINJA_INPUTS"@] == text::join(m.texts, " "@)
            &&& env.contains_key("NIX_NINJA_OUTPUTS"@)
            &&& env["NIX_NINJA_OUTPUTS"@] == text::join(told, " "@)
            &&& told.len() == m.placeholders.len()
            &&& told[i] == m.placeholders[i] + ":"@ + p + ":"@ + path::render(
                path::no_climb(path::comps(p)),
            )
        }),
{
    names_differ();
}

proof fn names_differ()
    ensures
        "NIX_NINJA_INPUTS"@ != "NIX_NINJA_OUTPUTS"@,
        "NIX_NINJA_INPUTS"@ != "NIX_NINJA_ALIASES"@,
        "NIX_NINJA_INPUTS"@ != "NIX_NINJA_EMPTY_DIRS"@,
        "NIX_NINJA_INPUTS"@ != "NIX_NINJA_VERBOSE_LOG"@,
        "NIX_NINJA_INPUTS"@ != "NIX_NINJA_DEPFILE"@,
        "NIX_NINJA_INPUTS"@ != "NIX_NINJA_RSPFILE_PATH"@,
        "NIX_NINJA_INPUTS"@ != "NIX_NINJA_RSPFILE_CONTENT"@,
        "NIX_NINJA_INPUTS"@ != "PATH"@,
        "NIX_NINJA_INPUTS"@ != "passAsFile"@,
        "NIX_NINJA_OUTPUTS"@ != "NIX_NINJA_VERBOSE_LOG"@,
        "NIX_NINJA_OUTPUTS"@ != "NIX_NINJA_DEPFILE"@,
        "NIX_NINJA_OUTPUTS"@ != "NIX_NINJA_RSPFILE_PATH"@,
        "NIX_NINJA_OUTPUTS"@ != "NIX_NINJA_RSPFILE_CONTENT"@,
        "NIX_NINJA_OUTPUTS"@ != "PATH"@,
        "NIX_NINJA_OUTPUTS"@ != "passAsFile"@,
        "NIX_NINJA_ALIASES"@ != "NIX_NINJA_EMPTY_DIRS"@,
        "NIX_NINJA_ALIASES"@ != "NIX_NINJA_OUTPUTS"@,
        "NIX_NINJA_ALIASES"@ != "NIX_NINJA_VERBOSE_LOG"@,
        "NIX_NINJA_ALIASES"@ != "NIX_NINJA_DEPFILE"@,
        "NIX_NINJA_ALIASES"@ != "NIX_NINJA_RSPFILE_PATH"@,
        "NIX_NINJA_ALIASES"@ != "NIX_NINJA_RSPFILE_CONTENT"@,
        "NIX_NINJA_ALIASES"@ != "PATH"@,
        "NIX_NINJA_ALIASES"@ != "passAsFile"@,
        "NIX_NINJA_EMPTY_DIRS"@ != "NIX_NINJA_OUTPUTS"@,
        "NIX_NINJA_EMPTY_DIRS"@ != "NIX_NINJA_VERBOSE_LOG"@,
        "NIX_NINJA_EMPTY_DIRS"@ != "NIX_NINJA_DEPFILE"@,
        "NIX_NINJA_EMPTY_DIRS"@ != "NIX_NINJA_RSPFILE_PATH"@,
        "NIX_NINJA_EMPTY_DIRS"@ != "NIX_NINJA_RSPFILE_CONTENT"@,
        "NIX_NINJA_EMPTY_DIRS"@ != "PATH"@,
        "NIX_NINJA_EMPTY_DIRS"@ != "passAsFile"@,
        "NIX_NINJA_VERBOSE_LOG"@ != "NIX_NINJA_DEPFILE"@,
        "NIX_NINJA_VERBOSE_LOG"@ != "NIX_NINJA_RSPFILE_PATH"@,
        "NIX_NINJA_VERBOSE_LOG"@ != "NIX_NINJA_RSPFILE_CONTENT"@,
        "NIX_NINJA_VERBOSE_LOG"@ != "PATH"@,
        "NIX_NINJA_VERBOSE_LOG"@ != "passAsFile"@,
        "NIX_NINJA_DEPFILE"@ != "NIX_NINJA_RSPFILE_PATH"@,
        "NIX_NINJA_DEPFILE"@ != "NIX_NINJA_RSPFILE_CONTENT"@,
        "NIX_NINJA_DEPFILE"@ != "PATH"@,
        "NIX_NINJA_DEPFILE"@ != "passAsFile"@,
        "NIX_NINJA_RSPFILE_PATH"@ != "NIX_NINJA_RSPFILE_CONTENT"@,
        "NIX_NINJA_RSPFILE_PATH"@ != "PATH"@,
        "NIX_NINJA_RSPFILE_PATH"@ != "passAsFile"@,
        "NIX_NINJA_RSPFILE_CONTENT"@ != "PATH"@,
        "NIX_NINJA_RSPFILE_CONTENT"@ != "passAsFile"@,
        "PATH"@ != "passAsFile"@,
{
    reveal_strlit("NIX_NINJA_INPUTS");
    reveal_strlit("NIX_NINJA_OUTPUTS");
    reveal_strlit("NIX_NINJA_ALIASES");
    reveal_strlit("NIX_NINJA_EMPTY_DIRS");
    reveal_strlit("NIX_NINJA_VERBOSE_LOG");
    reveal_strlit("NIX_NINJA_DEPFILE");
    reveal_strlit("NIX_NINJA_MKDIRS");
    reveal_strlit("NIX_NINJA_RSPFILE_PATH");
    reveal_strlit("NIX_NINJA_RSPFILE_CONTENT");
    reveal_strlit("PATH");
    reveal_strlit("passAsFile");
    assert("NIX_NINJA_INPUTS"@[10] == 'I');
    assert("NIX_NINJA_OUTPUTS"@[10] == 'O');
    assert("NIX_NINJA_ALIASES"@[10] == 'A');
    assert("NIX_NINJA_EMPTY_DIRS"@[10] == 'E');
    assert("NIX_NINJA_VERBOSE_LOG"@[10] == 'V');
    assert("NIX_NINJA_DEPFILE"@[10] == 'D');
    assert("NIX_NINJA_MKDIRS"@[10] == 'M');
    assert("NIX_NINJA_RSPFILE_PATH"@[10] == 'R');
    assert("NIX_NINJA_RSPFILE_CONTENT"@[10] == 'R');
    assert("NIX_NINJA_RSPFILE_CONTENT"@.len() != "NIX_NINJA_RSPFILE_PATH"@.len());
    assert("PATH"@.len() == 4);
    assert("passAsFile"@.len() == 10);
}

/// The task is told of its log, of its dependency file under its store name, and
/// of its response file with its text, each where it has one; long texts are
/// handed over in files.
pub proof fn files_of_the_task_are_told(m: Making)
    ensures
        ({
            let env = made(m).env;
            &&& m.t.verbose ==> env.contains_key("NIX_NINJA_VERBOSE_LOG"@)
                && env["NIX_NINJA_VERBOSE_LOG"@] == if m.t.outputs@.len() > 0 {
                m.t.outputs@[0]@ + ".nn-verbose-log"@
            } else {
                "nn-verbose-log"@
            }
            &&& task::depfile_of(m.t) matches Some(d) ==> env.contains_key("NIX_NINJA_DEPFILE"@)
                && env["NIX_NINJA_DEPFILE"@] == shapes::store_name(d)
            &&& m.t.rspfile matches Some((p, c)) ==> env.contains_key("NIX_NINJA_RSPFILE_PATH"@)
                && env["NIX_NINJA_RSPFILE_PATH"@] == p@ && env.contains_key(
                "NIX_NINJA_RSPFILE_CONTENT"@,
            ) && env["NIX_NINJA_RSPFILE_CONTENT"@] == rewrite::rewritten(c@, m.rewrite_map)
            &&& env.contains_key("passAsFile"@)
            &&& env["passAsFile"@] == if m.t.rspfile is Some {
                "NIX_NINJA_INPUTS NIX_NINJA_OUTPUTS NIX_NINJA_RSPFILE_CONTENT"@
            } else {
                "NIX_NINJA_INPUTS NIX_NINJA_OUTPUTS"@
            }
        }),
{
    names_differ();
    if m.t.outputs@.len() > 0 {
        assert(views::texts(m.t.outputs@)[0] == m.t.outputs@[0]@);
    }
}

/// The task is told of every link and of every empty directory of the build
/// directory, in their order.
pub proof fn links_and_directories_are_told(m: Making, i: int)
    ensures
        ({
            let env = made(m).env;
            let links = views::pairs(m.t.alias_symlinks@);
            let told = derivation::link_texts(links);
            &&& links.len() > 0 ==> env.contains_key("NIX_NINJA_ALIASES"@)
                && env["NIX_NINJA_ALIASES"@] == text::join(told, " "@)
            &&& told.len() == links.len()
            &&& 0 <= i < links.len() ==> told[i] == links[i].0 + "="@ + links[i].1
            &&& m.t.empty_dirs@.len() > 0 ==> env.contains_key("NIX_NINJA_EMPTY_DIRS"@)
                && env["NIX_NINJA_EMPTY_DIRS"@] == text::join(
                views::texts(m.t.empty_dirs@),
                " "@,
            )
        }),
{
    names_differ();
}

/// The task is run where its climbs end: in the sandbox's own build directory, or
/// deep enough below `/build/source` where something climbs; else it is told no
/// directory at all.
pub proof fn the_run_directory_is_told(m: Making)
    ensures
        ({
            let s = fresh::all_replaced(discovered(m), m.fresh);
            let n = m.t.desc is Some;
            let k: int = if n {
                2
            } else {
                1
            };
            match derivation::run_dir(m.t.build_dir@, derivation::climb_of(s)) {
                Some(d) => made(m).args.len() == k + 2 && made(m).args[k] == "--build-dir"@ && made(
                    m,
                ).args[k + 1] == d,
                None => made(m).args.len() == k,
            }
        }),
{
    let s = assembly::all_forwarded(first(m), m.t.store_dir@, m.forwards);
    forwarding_changes_nothing_else(first(m), m.t.store_dir@, m.forwards);
    let with_sources = StageView {
        drv: DrvView {
            inputs: derivation::with_sources(s.drv.inputs, m.t, m.tools, m.cc),
            ..s.drv
        },
        ..s
    };
    inputs_change_nothing_else(with_sources, m.inputs);
    let gathered = derivation::with_inputs(with_sources, m.inputs);
    let with_dirs = derivation::with_dotdot(gathered, m.t.build_dir@, m.dirs);
    let with_paths = derivation::with_store_paths(with_dirs, m.store_paths);
    inputs_change_nothing_else(with_paths, m.found);
    fresh_changes_nothing_else(discovered(m), m.fresh);
}

} // verus!
