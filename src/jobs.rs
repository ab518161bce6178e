//! Building one merge command per sample from the tool options.
use vstd::prelude::*;
use crate::classify::{
    group_views, is_complete, opt_view, GroupView, ReadPairLookup,
};
use crate::pattern::views;
use crate::text::{decimal, decimal_string, join_strings, joined};

verus! {

/// What a run is asked to do: the inputs, the output directory, the options
/// handed to the merge tool and the limits of the job pool. The two
/// fractional options hold the text of their value.
pub struct Config {
    pub query: Vec<String>,
    pub out_dir: String,
    pub p_value: Option<String>,
    pub min_overlap: Option<u32>,
    pub max_assembly_length: Option<u32>,
    pub min_assembly_length: Option<u32>,
    pub min_trim_length: Option<u32>,
    pub quality_threshold: Option<u32>,
    pub max_uncalled_base: Option<String>,
    pub test_method: Option<u32>,
    pub empirical_freqs: Option<bool>,
    pub score_method: Option<u32>,
    pub phred_base: Option<u32>,
    pub memory: Option<String>,
    pub cap: Option<u32>,
    pub threads: Option<u32>,
    pub nbase: Option<bool>,
    pub keep_original: Option<bool>,
    pub stitch: Option<bool>,
    pub num_concurrent_jobs: Option<u32>,
    pub num_halt: Option<u32>,
}

/// `flag value` as one argument, where the value is present.
pub open spec fn valued(flag: Seq<char>, v: Option<Seq<char>>) -> Seq<Seq<char>> {
    match v {
        Some(x) => seq![flag + seq![' '] + x],
        None => Seq::empty(),
    }
}

/// The numeral of a number that is present.
pub open spec fn numeral(v: Option<u32>) -> Option<Seq<char>> {
    match v {
        Some(n) => Some(decimal(n as nat)),
        None => None,
    }
}

/// The flag alone, where the switch is on.
pub open spec fn switch(flag: Seq<char>, v: Option<bool>) -> Seq<Seq<char>> {
    if v == Some(true) {
        seq![flag]
    } else {
        Seq::empty()
    }
}

/// The merge tool's options that the configuration sets, in a fixed order.
pub open spec fn option_args(c: &Config) -> Seq<Seq<char>> {
    valued("-p"@, opt_view(c.p_value)) + valued("-v"@, numeral(c.min_overlap)) + valued(
        "-m"@,
        numeral(c.max_assembly_length),
    ) + valued("-n"@, numeral(c.min_assembly_length)) + valued(
        "-t"@,
        numeral(c.min_trim_length),
    ) + valued("-q"@, numeral(c.quality_threshold)) + valued(
        "-u"@,
        opt_view(c.max_uncalled_base),
    ) + valued("-g"@, numeral(c.test_method)) + switch("-e"@, c.empirical_freqs) + valued(
        "-s"@,
        numeral(c.score_method),
    ) + valued("-b"@, numeral(c.phred_base)) + valued("-y"@, opt_view(c.memory)) + valued(
        "-c"@,
        numeral(c.cap),
    ) + valued("-j"@, numeral(c.threads)) + switch("-z"@, c.nbase) + switch(
        "-k"@,
        c.keep_original,
    ) + switch("-i"@, c.stitch)
}

/// `name` inside the directory `dir`; `name` holds no `/`.
pub open spec fn join_path(dir: Seq<char>, name: Seq<char>) -> Seq<char> {
    if dir.len() == 0 || dir.last() == '/' {
        dir + name
    } else {
        dir + seq!['/'] + name
    }
}

/// The merge command for one complete sample group.
pub open spec fn job_command(out_dir: Seq<char>, g: GroupView, args: Seq<Seq<char>>) -> Seq<char> {
    "pear -f "@ + g.forward->0 + " -r "@ + g.reverse->0 + " -o "@ + join_path(out_dir, g.sample)
        + " "@ + joined(args, " "@)
}

/// The commands for the groups, one for each, in their order.
pub open spec fn commands(out_dir: Seq<char>, groups: Seq<GroupView>, args: Seq<Seq<char>>) -> Seq<
    Seq<char>,
> {
    groups.map_values(|g: GroupView| job_command(out_dir, g, args))
}

fn push_valued(args: &mut Vec<String>, flag: &str, v: &Option<String>)
    ensures
        views(final(args)@) == views(old(args)@) + valued(flag@, opt_view(*v)),
{
    let ghost before = views(args@);
    proof {
        reveal_strlit(" ");
    }
    match v {
        Some(x) => {
            let mut s = String::from_str(flag);
            s.append(" ");
            s.append(x.as_str());
            assert(s@ =~= flag@ + seq![' '] + x@);
            args.push(s);
            assert(views(args@) =~= before + valued(flag@, opt_view(*v)));
        },
        None => {
            assert(views(args@) =~= before + valued(flag@, opt_view(*v)));
        },
    }
}

fn push_number(args: &mut Vec<String>, flag: &str, v: Option<u32>)
    ensures
        views(final(args)@) == views(old(args)@) + valued(flag@, numeral(v)),
{
    let text = match v {
        Some(n) => Some(decimal_string(n as u64)),
        None => None,
    };
    push_valued(args, flag, &text);
}

fn push_switch(args: &mut Vec<String>, flag: &str, v: Option<bool>)
    ensures
        views(final(args)@) == views(old(args)@) + switch(flag@, v),
{
    let ghost before = views(args@);
    if v == Some(true) {
        args.push(String::from_str(flag));
    }
    assert(views(args@) =~= before + switch(flag@, v));
}

/// The merge tool's options that the configuration sets, each as one
/// argument: a flag with its value, or a flag alone for a switch that is on.
pub fn tool_args(config: &Config) -> (r: Vec<String>)
    ensures
        views(r@) == option_args(config),
{
    let mut args: Vec<String> = Vec::new();
    assert(views(args@) =~= Seq::<Seq<char>>::empty());
    push_valued(&mut args, "-p", &config.p_value);
    push_number(&mut args, "-v", config.min_overlap);
    push_number(&mut args, "-m", config.max_assembly_length);
    push_number(&mut args, "-n", config.min_assembly_length);
    push_number(&mut args, "-t", config.min_trim_length);
    push_number(&mut args, "-q", config.quality_threshold);
    push_valued(&mut args, "-u", &config.max_uncalled_base);
    push_number(&mut args, "-g", config.test_method);
    push_switch(&mut args, "-e", config.empirical_freqs);
    push_number(&mut args, "-s", config.score_method);
    push_number(&mut args, "-b", config.phred_base);
    push_valued(&mut args, "-y", &config.memory);
    push_number(&mut args, "-c", config.cap);
    push_number(&mut args, "-j", config.threads);
    push_switch(&mut args, "-z", config.nbase);
    push_switch(&mut args, "-k", config.keep_original);
    push_switch(&mut args, "-i", config.stitch);
    assert(views(args@) =~= option_args(config));
    args
}

/// `name` inside the directory `dir`.
pub fn output_path(dir: &str, name: &str) -> (r: String)
    ensures
        r@ == join_path(dir@, name@),
{
    let len = dir.unicode_len();
    let mut s = String::from_str(dir);
    if len > 0 && dir.get_char(len - 1) != '/' {
        proof {
            reveal_strlit("/");
        }
        s.append("/");
    }
    s.append(name);
    s
}

/// One merge command for each sample group of `pairs`, in their order:
/// `pear -f <forward> -r <reverse> -o <out_dir>/<sample> <options>`.
pub fn make_jobs(config: &Config, pairs: &ReadPairLookup) -> (r: Vec<String>)
    ensures
        views(r@) == commands(config.out_dir@, pairs.view(), option_args(config)),
{
    let args = tool_args(config);
    let opts = join_strings(&args, " ");
    let groups = pairs.groups();
    let ghost gv = group_views(groups@);
    let mut jobs: Vec<String> = Vec::new();
    let mut i: usize = 0;
    while i < groups.len()
        invariant
            i <= groups@.len(),
            gv == group_views(groups@),
            gv == pairs.view(),
            forall|k: int| 0 <= k < gv.len() ==> is_complete(#[trigger] gv[k]),
            opts@ == joined(views(args@), " "@),
            views(args@) == option_args(config),
            views(jobs@) == commands(config.out_dir@, gv.subrange(0, i as int), option_args(config)),
        decreases groups@.len() - i,
    {
        let g = &groups[i];
        assert(gv[i as int] == g.view());
        assert(is_complete(gv[i as int]));
        let fwd = match &g.pair.forward {
            Some(f) => f,
            None => {
                assert(false);
                return jobs;
            },
        };
        let rev = match &g.pair.reverse {
            Some(x) => x,
            None => {
                assert(false);
                return jobs;
            },
        };
        let mut cmd = String::from_str("pear -f ");
        cmd.append(fwd.as_str());
        cmd.append(" -r ");
        cmd.append(rev.as_str());
        cmd.append(" -o ");
        let out = output_path(config.out_dir.as_str(), g.sample.as_str());
        cmd.append(out.as_str());
        cmd.append(" ");
        cmd.append(opts.as_str());
        assert(fwd@ == gv[i as int].forward->0);
        assert(rev@ == gv[i as int].reverse->0);
        assert(cmd@ =~= job_command(config.out_dir@, gv[i as int], option_args(config)));
        let ghost before = views(jobs@);
        let ghost c = cmd@;
        jobs.push(cmd);
        assert(views(jobs@) =~= before.push(c));
        assert(commands(config.out_dir@, gv.subrange(0, i + 1), option_args(config)) =~= commands(
            config.out_dir@,
            gv.subrange(0, i as int),
            option_args(config),
        ).push(c));
        assert(views(jobs@) =~= commands(
            config.out_dir@,
            gv.subrange(0, i + 1),
            option_args(config),
        ));
        i = i + 1;
    }
    assert(gv.subrange(0, groups@.len() as int) =~= gv);
    jobs
}

} // verus!
