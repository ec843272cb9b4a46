//! How the package manager is asked for the metadata of a workspace.

use vstd::prelude::*;
use crate::text::chars_of;

verus! {

/// What to ask the package manager for.
#[derive(Debug, Clone)]
pub struct CollectMetadataConfig {
    pub quiet: bool,
    pub features: Option<String>,
    pub all_features: bool,
    pub no_default_features: bool,
    pub all_targets: bool,
    pub target: Option<String>,
    pub manifest_path: Option<String>,
    pub verbose: u32,
    pub color: Option<String>,
    pub frozen: bool,
    pub locked: bool,
    pub offline: bool,
    pub unstable_flags: Vec<String>,
}

impl Default for CollectMetadataConfig {
    /// All features of all targets, and nothing else asked for.
    fn default() -> (config: Self)
        ensures
            !config.quiet,
            config.features is None,
            config.all_features,
            !config.no_default_features,
            config.all_targets,
            config.target is None,
            config.manifest_path is None,
            config.verbose == 0,
            config.color is None,
            !config.frozen,
            !config.locked,
            !config.offline,
            config.unstable_flags@.len() == 0,
    {
        Self {
            quiet: false,
            features: None,
            all_features: true,
            no_default_features: false,
            all_targets: true,
            target: None,
            manifest_path: None,
            verbose: 0,
            color: None,
            frozen: false,
            locked: false,
            offline: false,
            unstable_flags: Vec::new(),
        }
    }
}

/// What a [`CollectMetadataConfig`] holds, as mathematical values.
pub ghost struct ConfigView {
    pub quiet: bool,
    pub features: Option<Seq<char>>,
    pub all_features: bool,
    pub no_default_features: bool,
    pub all_targets: bool,
    pub target: Option<Seq<char>>,
    pub manifest_path: Option<Seq<char>>,
    pub verbose: nat,
    pub color: Option<Seq<char>>,
    pub frozen: bool,
    pub locked: bool,
    pub offline: bool,
    pub unstable_flags: Seq<Seq<char>>,
}

/// The characters of an optional string.
pub open spec fn text_of(s: Option<String>) -> Option<Seq<char>> {
    match s {
        Some(t) => Some(t@),
        None => None,
    }
}

/// The strings of a list, each as its characters.
pub open spec fn texts(list: Seq<String>) -> Seq<Seq<char>> {
    list.map_values(|s: String| s@)
}

impl View for CollectMetadataConfig {
    type V = ConfigView;

    open spec fn view(&self) -> ConfigView {
        ConfigView {
            quiet: self.quiet,
            features: text_of(self.features),
            all_features: self.all_features,
            no_default_features: self.no_default_features,
            all_targets: self.all_targets,
            target: text_of(self.target),
            manifest_path: text_of(self.manifest_path),
            verbose: self.verbose as nat,
            color: text_of(self.color),
            frozen: self.frozen,
            locked: self.locked,
            offline: self.offline,
            unstable_flags: texts(self.unstable_flags@),
        }
    }
}

/// The argument `name`, where it is switched on.
pub open spec fn switch(on: bool, name: Seq<char>) -> Seq<Seq<char>> {
    if on {
        seq![name]
    } else {
        Seq::empty()
    }
}

/// The argument `name` and its value, where there is a value.
pub open spec fn setting(name: Seq<char>, value: Option<Seq<char>>) -> Seq<Seq<char>> {
    match value {
        Some(v) => seq![name, v],
        None => Seq::empty(),
    }
}

/// The argument `-v`, `count` times.
pub open spec fn verbosity(count: nat) -> Seq<Seq<char>> {
    Seq::new(count, |i: int| "-v"@)
}

/// The argument `-Z` before each of the flags.
pub open spec fn unstable(flags: Seq<Seq<char>>) -> Seq<Seq<char>>
    decreases flags.len(),
{
    if flags.len() == 0 {
        Seq::empty()
    } else {
        unstable(flags.drop_last()) + seq!["-Z"@, flags.last()]
    }
}

/// The platform to filter by, where not all targets are asked for: the
/// target of the configuration, or the host where it names none.
pub open spec fn platform(c: ConfigView, host: Seq<char>) -> Seq<Seq<char>> {
    if c.all_targets {
        Seq::empty()
    } else {
        seq![
            "--filter-platform"@,
            match c.target {
                Some(target) => target,
                None => host,
            },
        ]
    }
}

/// The arguments with which the package manager is asked for the metadata.
pub open spec fn arguments(c: ConfigView, host: Seq<char>) -> Seq<Seq<char>> {
    seq!["metadata"@, "--format-version"@, "1"@] + switch(c.quiet, "-q"@) + setting(
        "--features"@,
        c.features,
    ) + switch(c.all_features, "--all-features"@) + switch(
        c.no_default_features,
        "--no-default-features"@,
    ) + platform(c, host) + setting("--manifest-path"@, c.manifest_path) + verbosity(c.verbose)
        + setting("--color"@, c.color) + switch(c.frozen, "--frozen"@) + switch(
        c.locked,
        "--locked"@,
    ) + switch(c.offline, "--offline"@) + unstable(c.unstable_flags)
}

/// Adds `name` to the arguments, where it is switched on.
fn push_switch(args: &mut Vec<String>, on: bool, name: &str)
    ensures
        texts(final(args)@) == texts(old(args)@) + switch(on, name@),
{
    if on {
        args.push(name.to_owned());
        assert(texts(args@) =~= texts(old(args)@) + seq![name@]);
    } else {
        assert(texts(args@) =~= texts(old(args)@) + Seq::<Seq<char>>::empty());
    }
}

/// Adds `name` and its value to the arguments, where there is a value.
fn push_setting(args: &mut Vec<String>, name: &str, value: &Option<String>)
    ensures
        texts(final(args)@) == texts(old(args)@) + setting(name@, text_of(*value)),
{
    match value {
        Some(v) => {
            args.push(name.to_owned());
            args.push(v.clone());
            assert(texts(args@) =~= texts(old(args)@) + seq![name@, v@]);
        },
        None => {
            assert(texts(args@) =~= texts(old(args)@) + Seq::<Seq<char>>::empty());
        },
    }
}

impl CollectMetadataConfig {
    /// Whether the arguments name the host: not all targets are asked for,
    /// and no target is named.
    pub fn needs_host(&self) -> (r: bool)
        ensures
            r == (!self.all_targets && self.target is None),
    {
        !self.all_targets && self.target.is_none()
    }

    /// The arguments with which the package manager is asked for the
    /// metadata. `host` is the platform of the host, which is named where
    /// not all targets are asked for and the configuration names no target.
    pub fn arguments(&self, host: &str) -> (args: Vec<String>)
        ensures
            texts(args@) == arguments(self@, host@),
    {
        let mut args: Vec<String> = Vec::new();
        args.push("metadata".to_owned());
        args.push("--format-version".to_owned());
        args.push("1".to_owned());
        assert(texts(args@) =~= seq!["metadata"@, "--format-version"@, "1"@]);
        push_switch(&mut args, self.quiet, "-q");
        push_setting(&mut args, "--features", &self.features);
        push_switch(&mut args, self.all_features, "--all-features");
        push_switch(&mut args, self.no_default_features, "--no-default-features");
        let ghost before = texts(args@);
        if !self.all_targets {
            args.push("--filter-platform".to_owned());
            match &self.target {
                Some(target) => {
                    args.push(target.clone());
                },
                None => {
                    args.push(host.to_owned());
                },
            }
        }
        assert(texts(args@) =~= before + platform(self@, host@));
        push_setting(&mut args, "--manifest-path", &self.manifest_path);
        let ghost before = texts(args@);
        let mut i: u32 = 0;
        while i < self.verbose
            invariant
                i <= self.verbose,
                texts(args@) == before + verbosity(i as nat),
            decreases self.verbose - i,
        {
            let ghost so_far = texts(args@);
            args.push("-v".to_owned());
            assert(texts(args@) =~= so_far.push("-v"@));
            assert(verbosity((i + 1) as nat) =~= verbosity(i as nat).push("-v"@));
            assert(texts(args@) =~= before + verbosity((i + 1) as nat));
            i += 1;
        }
        push_setting(&mut args, "--color", &self.color);
        push_switch(&mut args, self.frozen, "--frozen");
        push_switch(&mut args, self.locked, "--locked");
        push_switch(&mut args, self.offline, "--offline");
        let ghost before = texts(args@);
        let ghost flags = texts(self.unstable_flags@);
        let mut k: usize = 0;
        while k < self.unstable_flags.len()
            invariant
                k <= self.unstable_flags@.len(),
                flags == texts(self.unstable_flags@),
                texts(args@) == before + unstable(flags.subrange(0, k as int)),
            decreases self.unstable_flags@.len() - k,
        {
            let ghost so_far = texts(args@);
            args.push("-Z".to_owned());
            args.push(self.unstable_flags[k].clone());
            proof {
                assert(texts(args@) =~= so_far + seq!["-Z"@, self.unstable_flags@[k as int]@]);
                let next = flags.subrange(0, k + 1);
                assert(next.drop_last() =~= flags.subrange(0, k as int));
                assert(next.last() == self.unstable_flags@[k as int]@);
                assert(texts(args@) =~= before + unstable(next));
            }
            k += 1;
        }
        proof {
            assert(flags.subrange(0, k as int) =~= flags);
        }
        args
    }
}

/// Whether a character has the Unicode property White_Space.
pub uninterp spec fn whitespace(c: char) -> bool;

/// `char::is_whitespace` tells whether the character has the Unicode
/// property White_Space.
pub assume_specification[ char::is_whitespace ](c: char) -> (r: bool)
    ensures
        r == whitespace(c),
;

/// The first place from `from` on that holds a line feed, or the end of `s`.
pub open spec fn line_end(s: Seq<char>, from: int) -> int
    decreases s.len() - from,
{
    if from >= s.len() || s[from] == '\n' {
        from
    } else {
        line_end(s, from + 1)
    }
}

/// `line_end` lies between `from` and the end of `s`.
pub proof fn lemma_line_end_bounds(s: Seq<char>, from: int)
    requires
        0 <= from <= s.len(),
    ensures
        from <= line_end(s, from) <= s.len(),
    decreases s.len() - from,
{
    if from < s.len() && s[from] != '\n' {
        lemma_line_end_bounds(s, from + 1);
    }
}

/// What the line that names the host begins with.
pub open spec fn host_prefix() -> Seq<char> {
    seq!['h', 'o', 's', 't', ':', ' ']
}

/// Whether `s` begins with `prefix`.
pub open spec fn starts_with(s: Seq<char>, prefix: Seq<char>) -> bool {
    prefix.len() <= s.len() && s.subrange(0, prefix.len() as int) == prefix
}

/// `s` without the white space at its beginning.
pub open spec fn trim_start(s: Seq<char>) -> Seq<char>
    decreases s.len(),
{
    if s.len() > 0 && whitespace(s[0]) {
        trim_start(s.drop_first())
    } else {
        s
    }
}

/// `s` without the white space at its end.
pub open spec fn trim_end(s: Seq<char>) -> Seq<char>
    decreases s.len(),
{
    if s.len() > 0 && whitespace(s.last()) {
        trim_end(s.drop_last())
    } else {
        s
    }
}

/// `s` without the white space at its beginning and at its end.
pub open spec fn trimmed(s: Seq<char>) -> Seq<char> {
    trim_end(trim_start(s))
}

/// The host that the compiler's description of itself names, looking at the
/// lines from `from` on: what follows `host: ` in the first line that begins
/// so, without the white space around it.
pub open spec fn host_from(s: Seq<char>, from: int) -> Option<Seq<char>>
    decreases s.len() - from,
{
    if from < 0 || from > s.len() {
        None
    } else {
        let end = line_end(s, from);
        let line = s.subrange(from, end);
        proof {
            lemma_line_end_bounds(s, from);
        }
        if starts_with(line, host_prefix()) {
            Some(trimmed(line.subrange(host_prefix().len() as int, line.len() as int)))
        } else if end >= s.len() {
            None
        } else {
            host_from(s, end + 1)
        }
    }
}

/// The host that the compiler's description of itself names.
pub open spec fn host_named(output: Seq<char>) -> Option<Seq<char>> {
    host_from(output, 0)
}

/// Cutting white space off the beginning stops at the first character that
/// is none.
proof fn lemma_trim_start_at(s: Seq<char>, lo: int)
    requires
        0 <= lo <= s.len(),
        forall|k: int| 0 <= k < lo ==> whitespace(s[k]),
        lo < s.len() ==> !whitespace(s[lo]),
    ensures
        trim_start(s) == s.subrange(lo, s.len() as int),
    decreases lo,
{
    if lo == 0 {
        assert(s.subrange(0, s.len() as int) =~= s);
    } else {
        lemma_trim_start_at(s.drop_first(), lo - 1);
        assert(s.drop_first().subrange(lo - 1, s.len() - 1) =~= s.subrange(lo, s.len() as int));
    }
}

/// Cutting white space off the end stops behind the last character that is
/// none.
proof fn lemma_trim_end_at(s: Seq<char>, hi: int)
    requires
        0 <= hi <= s.len(),
        forall|k: int| hi <= k < s.len() ==> whitespace(s[k]),
        hi > 0 ==> !whitespace(s[hi - 1]),
    ensures
        trim_end(s) == s.subrange(0, hi),
    decreases s.len() - hi,
{
    if hi == s.len() {
        assert(s.subrange(0, s.len() as int) =~= s);
    } else {
        lemma_trim_end_at(s.drop_last(), hi);
        assert(s.drop_last().subrange(0, hi) =~= s.subrange(0, hi));
    }
}

/// The host that the compiler names where it is asked to describe itself at
/// length, if it names one.
pub fn host_of(output: &str) -> (host: Option<String>)
    ensures
        match host {
            Some(name) => host_named(output@) == Some(name@),
            None => host_named(output@) is None,
        },
{
    let chars = chars_of(output);
    let len = chars.len();
    let mut from: usize = 0;
    loop
        invariant
            chars@ == output@,
            len == chars@.len(),
            from <= len,
            host_from(output@, from as int) == host_named(output@),
        decreases len - from,
    {
        let mut end: usize = from;
        while end < len && chars[end] != '\n'
            invariant
                chars@ == output@,
                len == chars@.len(),
                from <= end <= len,
                line_end(output@, end as int) == line_end(output@, from as int),
            decreases len - end,
        {
            end += 1;
        }
        let ghost line = output@.subrange(from as int, end as int);
        let begins = end - from >= 6 && chars[from] == 'h' && chars[from + 1] == 'o' && chars[from
            + 2] == 's' && chars[from + 3] == 't' && chars[from + 4] == ':' && chars[from + 5]
            == ' ';
        proof {
            if begins {
                assert(line.subrange(0, 6) =~= host_prefix());
            } else if end - from >= 6 {
                let head = line.subrange(0, 6);
                assert(head[0] == chars@[from as int]);
                assert(head[1] == chars@[from + 1]);
                assert(head[2] == chars@[from + 2]);
                assert(head[3] == chars@[from + 3]);
                assert(head[4] == chars@[from + 4]);
                assert(head[5] == chars@[from + 5]);
                assert(host_prefix()[0] == 'h' && host_prefix()[1] == 'o' && host_prefix()[2]
                    == 's' && host_prefix()[3] == 't' && host_prefix()[4] == ':' && host_prefix()[5]
                    == ' ');
            }
            assert(begins == starts_with(line, host_prefix()));
        }
        if begins {
            let ghost rest = line.subrange(6, line.len() as int);
            let mut lo: usize = from + 6;
            while lo < end && chars[lo].is_whitespace()
                invariant
                    chars@ == output@,
                    len == chars@.len(),
                    from + 6 <= lo <= end <= len,
                    forall|k: int| from + 6 <= k < lo ==> whitespace(chars@[k]),
                decreases end - lo,
            {
                lo += 1;
            }
            let mut hi: usize = end;
            while hi > lo && chars[hi - 1].is_whitespace()
                invariant
                    chars@ == output@,
                    len == chars@.len(),
                    lo <= hi <= end <= len,
                    forall|k: int| hi <= k < end ==> whitespace(chars@[k]),
                decreases hi,
            {
                hi -= 1;
            }
            proof {
                assert(rest =~= output@.subrange(from + 6, end as int));
                assert forall|k: int| 0 <= k < lo - (from + 6) implies whitespace(rest[k]) by {
                    assert(rest[k] == chars@[k + from + 6]);
                }
                lemma_trim_start_at(rest, lo - (from + 6));
                let cut = output@.subrange(lo as int, end as int);
                assert(rest.subrange(lo - (from + 6), rest.len() as int) =~= cut);
                assert forall|k: int| hi - lo <= k < cut.len() implies whitespace(cut[k]) by {
                    assert(cut[k] == chars@[k + lo]);
                }
                lemma_trim_end_at(cut, hi - lo);
                assert(cut.subrange(0, hi - lo) =~= output@.subrange(lo as int, hi as int));
            }
            return Some(output.substring_char(lo, hi).to_owned());
        }
        if end >= len {
            return None;
        }
        from = end + 1;
    }
}

} // verus!
