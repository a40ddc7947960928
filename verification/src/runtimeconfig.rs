//! Runtime configuration: defaults, the token-based argument machine, and the
//! path helpers it uses. Resolving relative paths against the filesystem
//! happens at the I/O edge; here paths are plain text.

use vstd::prelude::*;

use crate::text::{replace_spec, strings_view};

verus! {

/// A fatal problem found while reading the arguments.
#[derive(Clone, Copy, Debug, PartialEq, Eq, Structural)]
pub enum ConfigError {
    /// A parameter expecting a value got too few.
    MissingParameterValue,
    /// A numeric parameter value is not an unsigned byte.
    BadNumber,
}

/// The settings of one run.
#[derive(Debug)]
pub struct RuntimeConfig {
    pub me: String,
    pub help: bool,  // -h
    pub dry: bool,  // -d
    pub verbose: bool,  // -v
    pub soft: bool,  // -s
    pub copy: bool,  // -c
    pub kits: Vec<String>,  // -k
    pub trunc: u8,  // -t
    pub rules: String,  // -r
    pub input_path: String,  // -i
    pub output_path: String,  // -o
}

/// The mathematical content of a configuration.
pub ghost struct ConfigView {
    pub me: Seq<char>,
    pub help: bool,
    pub dry: bool,
    pub verbose: bool,
    pub soft: bool,
    pub copy: bool,
    pub kits: Seq<Seq<char>>,
    pub trunc: u8,
    pub rules: Seq<char>,
    pub input_path: Seq<char>,
    pub output_path: Seq<char>,
}

impl RuntimeConfig {
    pub open spec fn view(self) -> ConfigView {
        ConfigView {
            me: self.me@,
            help: self.help,
            dry: self.dry,
            verbose: self.verbose,
            soft: self.soft,
            copy: self.copy,
            kits: strings_view(self.kits@),
            trunc: self.trunc,
            rules: self.rules@,
            input_path: self.input_path@,
            output_path: self.output_path@,
        }
    }
}

/// The built-in defaults: everything off, no truncation, output beside the
/// input under a `*_remapped` name. The input path stays empty here; the I/O
/// edge resolves it to the working directory when no `-i` was given.
pub open spec fn default_config_view() -> ConfigView {
    ConfigView {
        me: ""@,
        help: false,
        dry: false,
        verbose: false,
        soft: false,
        copy: false,
        kits: Seq::empty(),
        trunc: 0u8,
        rules: ""@,
        input_path: ""@,
        output_path: "*_remapped"@,
    }
}

pub fn setup_default_config() -> (r: RuntimeConfig)
    ensures
        r@ == default_config_view(),
{
    let r = RuntimeConfig {
        me: "".to_owned(),
        help: false,
        dry: false,
        verbose: false,
        soft: false,
        copy: false,
        kits: Vec::new(),
        trunc: 0,
        rules: "".to_owned(),
        input_path: "".to_owned(),
        output_path: "*_remapped".to_owned(),
    };
    proof {
        assert(strings_view(r.kits@) =~= Seq::<Seq<char>>::empty());
    }
    r
}

/// `s` with a `/` appended unless it already ends in a path separator.
pub open spec fn add_slash_spec(s: Seq<char>) -> Seq<char> {
    if s.last() == '/' || s.last() == '\\' {
        s
    } else {
        s + "/"@
    }
}

pub fn add_trailing_slash(to: &str) -> (r: String)
    requires
        to@.len() > 0,
    ensures
        r@ == add_slash_spec(to@),
{
    let n = to.unicode_len();
    let last = to.get_char(n - 1);
    let mut out = to.to_owned();
    if last != '/' && last != '\\' {
        out.append("/");
    }
    out
}

/// `p` with every trailing `/` removed.
pub open spec fn strip_trailing_slashes(p: Seq<char>) -> Seq<char>
    decreases p.len(),
{
    if p.len() > 0 && p.last() == '/' {
        strip_trailing_slashes(p.drop_last())
    } else {
        p
    }
}

/// The characters after the last `/` of `p`.
pub open spec fn after_last_slash(p: Seq<char>) -> Seq<char>
    decreases p.len(),
{
    if p.len() == 0 {
        p
    } else if p.last() == '/' {
        Seq::empty()
    } else {
        after_last_slash(p.drop_last()).push(p.last())
    }
}

/// The final path component of `p`, ignoring trailing slashes.
pub open spec fn base_name_spec(p: Seq<char>) -> Seq<char> {
    after_last_slash(strip_trailing_slashes(p))
}

/// Replace `*` in the output path by the input directory's base name.
pub open spec fn target_name_spec(output_path: Seq<char>, input_path: Seq<char>) -> Seq<char> {
    replace_spec(output_path, "*"@, base_name_spec(input_path))
}

proof fn lemma_after_last_slash_tail(q: Seq<char>, c: int)
    requires
        0 <= c <= q.len(),
        forall|j: int| c <= j < q.len() ==> q[j] != '/',
        c == 0 || q[c - 1] == '/',
    ensures
        after_last_slash(q) == q.subrange(c, q.len() as int),
    decreases q.len(),
{
    if q.len() == 0 {
        assert(q.subrange(0, 0) =~= after_last_slash(q));
    } else if c == q.len() {
        assert(q.last() == '/');
        assert(q.subrange(c, q.len() as int) =~= Seq::<char>::empty());
    } else {
        assert(q.last() != '/');
        lemma_after_last_slash_tail(q.drop_last(), c);
        assert(q.drop_last().subrange(c, q.len() - 1).push(q.last()) =~= q.subrange(
            c,
            q.len() as int,
        )) by {
            assert(q.drop_last().subrange(c, q.len() - 1) =~= q.subrange(c, q.len() - 1));
        }
    }
}

/// The output directory's name: `*` in the output path stands for the input
/// directory's base name.
#[verifier::loop_isolation(false)]
pub fn target_name(output_path: &String, input_path: &str) -> (r: String)
    requires
        base_name_spec(input_path@).len() > 0,
    ensures
        r@ == target_name_spec(output_path@, input_path@),
{
    let p = crate::text::str_to_chars(input_path);
    let mut end: usize = p.len();
    assert(p@.subrange(0, p@.len() as int) =~= p@);
    while end > 0 && p[end - 1] == '/'
        invariant
            end <= p@.len(),
            strip_trailing_slashes(p@) == strip_trailing_slashes(p@.subrange(0, end as int)),
        decreases end,
    {
        proof {
            let cur = p@.subrange(0, end as int);
            assert(cur.last() == p@[end - 1]);
            assert(cur.drop_last() =~= p@.subrange(0, end - 1));
        }
        end = end - 1;
    }
    let ghost q = p@.subrange(0, end as int);
    proof {
        if end > 0 {
            assert(q.last() == p@[end - 1]);
        }
        assert(strip_trailing_slashes(q) == q);
    }
    let mut start: usize = end;
    while start > 0 && p[start - 1] != '/'
        invariant
            start <= end <= p@.len(),
            forall|j: int| start <= j < end ==> p@[j] != '/',
        decreases start,
    {
        start = start - 1;
    }
    proof {
        assert(forall|j: int| start <= j < q.len() ==> q[j] == p@[j]);
        lemma_after_last_slash_tail(q, start as int);
    }
    let mut base: Vec<char> = Vec::new();
    let mut i: usize = start;
    while i < end
        invariant
            start <= i <= end <= p@.len(),
            base@ == p@.subrange(start as int, i as int),
        decreases end - i,
    {
        base.push(p[i]);
        i = i + 1;
        assert(base@ =~= p@.subrange(start as int, i as int));
    }
    proof {
        assert(base@ =~= q.subrange(start as int, q.len() as int));
        assert(base@ == base_name_spec(input_path@));
    }
    let star = crate::text::str_to_chars("*");
    let out_chars = crate::text::str_to_chars(output_path.as_str());
    let replaced = crate::text::replace_all(&out_chars, &star, &base);
    crate::text::chars_to_string(&replaced)
}

// ---- decimal parsing ----

pub open spec fn is_digit_char(c: char) -> bool {
    48 <= c as int <= 57
}

pub open spec fn digit_val(c: char) -> int {
    c as int - 48
}

pub open spec fn all_digits(s: Seq<char>) -> bool {
    forall|i: int| 0 <= i < s.len() ==> is_digit_char(s[i])
}

/// The value of a decimal digit string.
pub open spec fn digits_val(s: Seq<char>) -> int
    decreases s.len(),
{
    if s.len() == 0 {
        0
    } else {
        digits_val(s.drop_last()) * 10 + digit_val(s.last())
    }
}

/// What an unsigned-byte parse accepts: an optional `+`, then one or more
/// decimal digits whose value fits in a byte.
pub open spec fn parse_u8_spec(s: Seq<char>) -> Option<u8> {
    let body = if s.len() > 0 && s[0] == '+' {
        s.skip(1)
    } else {
        s
    };
    if body.len() > 0 && all_digits(body) && digits_val(body) <= 255 {
        Some(digits_val(body) as u8)
    } else {
        None
    }
}

proof fn lemma_digits_nonneg(s: Seq<char>)
    requires
        all_digits(s),
    ensures
        digits_val(s) >= 0,
    decreases s.len(),
{
    if s.len() > 0 {
        assert(all_digits(s.drop_last()));
        lemma_digits_nonneg(s.drop_last());
    }
}

proof fn lemma_digits_prefix(s: Seq<char>, k: int)
    requires
        all_digits(s),
        0 <= k <= s.len(),
    ensures
        digits_val(s) >= digits_val(s.take(k)),
    decreases s.len(),
{
    if k == s.len() {
        assert(s.take(k) =~= s);
    } else {
        assert(all_digits(s.drop_last()));
        assert(s.drop_last().take(k) =~= s.take(k));
        lemma_digits_prefix(s.drop_last(), k);
        lemma_digits_nonneg(s.drop_last());
        assert(digit_val(s.last()) >= 0);
    }
}

/// Parse a decimal unsigned byte, as a numeric parameter value is parsed.
#[verifier::loop_isolation(false)]
pub fn parse_u8(s: &str) -> (r: Option<u8>)
    ensures
        r == parse_u8_spec(s@),
{
    let cs = crate::text::str_to_chars(s);
    let mut start: usize = 0;
    if cs.len() > 0 && cs[0] == '+' {
        start = 1;
    }
    let ghost body = if s@.len() > 0 && s@[0] == '+' {
        s@.skip(1)
    } else {
        s@
    };
    proof {
        assert(body =~= cs@.subrange(start as int, cs@.len() as int));
    }
    if start >= cs.len() {
        return None;
    }
    let mut acc: u32 = 0;
    let mut j: usize = start;
    while j < cs.len()
        invariant
            start <= j <= cs@.len(),
            acc <= 255,
            all_digits(body.take(j - start)),
            acc as int == digits_val(body.take(j - start)),
        decreases cs@.len() - j,
    {
        let c = cs[j];
        proof {
            assert(body[j - start] == c);
        }
        if c < '0' || c > '9' {
            proof {
                assert(!is_digit_char(body[j - start]));
                assert(!all_digits(body));
            }
            return None;
        }
        let d = (c as u32) - 48;
        let acc2 = acc * 10 + d;
        proof {
            assert(body.take(j + 1 - start).drop_last() =~= body.take(j - start));
            assert(body.take(j + 1 - start).last() == body[j - start]);
            assert(digit_val(c) == d as int);
            assert(digits_val(body.take(j + 1 - start)) == acc * 10 + d);
        }
        if acc2 > 255 {
            proof {
                if all_digits(body) {
                    lemma_digits_prefix(body, j + 1 - start);
                    assert(digits_val(body) > 255);
                }
            }
            return None;
        }
        acc = acc2;
        j = j + 1;
    }
    proof {
        assert(body.take(j - start) =~= body);
    }
    Some(acc as u8)
}


/// Copy the buffered values of a parameter, requiring at least
/// `ensure_amount` of them.
#[verifier::loop_isolation(false)]
pub fn read_buffer(token: &str, buffer: &Vec<String>, ensure_amount: usize) -> (r: Result<
    Vec<String>,
    ConfigError,
>)
    ensures
        match r {
            Ok(v) => buffer@.len() >= ensure_amount && strings_view(v@) == strings_view(buffer@),
            Err(e) => e == ConfigError::MissingParameterValue && buffer@.len() < ensure_amount,
        },
{
    let _ = token;
    if buffer.len() < ensure_amount {
        return Err(ConfigError::MissingParameterValue);
    }
    let mut out: Vec<String> = Vec::new();
    let mut i: usize = 0;
    while i < buffer.len()
        invariant
            i <= buffer@.len(),
            out@.len() == i,
            forall|j: int| #![trigger out@[j]] 0 <= j < i ==> out@[j]@ == buffer@[j]@,
        decreases buffer@.len() - i,
    {
        out.push(buffer[i].clone());
        i = i + 1;
    }
    proof {
        assert(strings_view(out@) =~= strings_view(buffer@));
    }
    Ok(out)
}

/// What one parameter token does to the configuration, given its buffered
/// values: flags toggle, `k` takes the whole buffer, `t` parses a byte,
/// `r`, `o` and `i` take one value, an unknown token changes nothing.
pub open spec fn process_token_spec(
    token: Seq<char>,
    cfg: ConfigView,
    buffer: Seq<Seq<char>>,
) -> Result<ConfigView, ConfigError> {
    if token.len() == 0 {
        Ok(cfg)
    } else if token == "v"@ {
        Ok(ConfigView { verbose: true, ..cfg })
    } else if token == "d"@ {
        Ok(ConfigView { dry: true, ..cfg })
    } else if token == "s"@ {
        Ok(ConfigView { soft: true, ..cfg })
    } else if token == "c"@ {
        Ok(ConfigView { copy: true, ..cfg })
    } else if token == "h"@ {
        Ok(ConfigView { help: true, ..cfg })
    } else if token == "k"@ {
        if buffer.len() < 1 {
            Err(ConfigError::MissingParameterValue)
        } else {
            Ok(ConfigView { kits: buffer, ..cfg })
        }
    } else if token == "t"@ {
        if buffer.len() < 1 {
            Err(ConfigError::MissingParameterValue)
        } else {
            match parse_u8_spec(buffer[0]) {
                None => Err(ConfigError::BadNumber),
                Some(n) => Ok(ConfigView { trunc: n, ..cfg }),
            }
        }
    } else if token == "r"@ {
        if buffer.len() < 1 {
            Err(ConfigError::MissingParameterValue)
        } else {
            Ok(ConfigView { rules: buffer[0], ..cfg })
        }
    } else if token == "o"@ {
        if buffer.len() < 1 {
            Err(ConfigError::MissingParameterValue)
        } else {
            Ok(ConfigView { output_path: buffer[0], ..cfg })
        }
    } else if token == "i"@ {
        if buffer.len() < 1 {
            Err(ConfigError::MissingParameterValue)
        } else {
            Ok(ConfigView { input_path: buffer[0], ..cfg })
        }
    } else {
        Ok(cfg)
    }
}

/// Apply one parameter token to the configuration. The `i` value is stored as
/// given; the I/O edge resolves it to an absolute path.
pub fn process_token(token: &str, config: &mut RuntimeConfig, buffer: &Vec<String>) -> (r: Result<
    (),
    ConfigError,
>)
    ensures
        match r {
            Ok(()) => Ok::<ConfigView, ConfigError>(final(config)@) == process_token_spec(
                token@,
                old(config)@,
                strings_view(buffer@),
            ),
            Err(e) => {
                &&& Err::<ConfigView, ConfigError>(e) == process_token_spec(
                    token@,
                    old(config)@,
                    strings_view(buffer@),
                )
                &&& final(config)@ == old(config)@
            },
        },
{
    if token.is_empty() {
        return Ok(());
    }
    if crate::text::str_eq(token, "v") {
        config.verbose = true;
    } else if crate::text::str_eq(token, "d") {
        config.dry = true;
    } else if crate::text::str_eq(token, "s") {
        config.soft = true;
    } else if crate::text::str_eq(token, "c") {
        config.copy = true;
    } else if crate::text::str_eq(token, "h") {
        config.help = true;
    } else if crate::text::str_eq(token, "k") {
        config.kits = match read_buffer(token, buffer, 1) {
            Ok(v) => v,
            Err(e) => {
                return Err(e);
            },
        };
    } else if crate::text::str_eq(token, "t") {
        let vals = match read_buffer(token, buffer, 1) {
            Ok(v) => v,
            Err(e) => {
                return Err(e);
            },
        };
        proof {
            assert(strings_view(vals@)[0] == strings_view(buffer@)[0]);
        }
        config.trunc = match parse_u8(vals[0].as_str()) {
            Some(n) => n,
            None => {
                return Err(ConfigError::BadNumber);
            },
        };
    } else if crate::text::str_eq(token, "r") {
        let vals = match read_buffer(token, buffer, 1) {
            Ok(v) => v,
            Err(e) => {
                return Err(e);
            },
        };
        proof {
            assert(strings_view(vals@)[0] == strings_view(buffer@)[0]);
        }
        config.rules = first_of(vals);
    } else if crate::text::str_eq(token, "o") {
        let vals = match read_buffer(token, buffer, 1) {
            Ok(v) => v,
            Err(e) => {
                return Err(e);
            },
        };
        proof {
            assert(strings_view(vals@)[0] == strings_view(buffer@)[0]);
        }
        config.output_path = first_of(vals);
    } else if crate::text::str_eq(token, "i") {
        let vals = match read_buffer(token, buffer, 1) {
            Ok(v) => v,
            Err(e) => {
                return Err(e);
            },
        };
        proof {
            assert(strings_view(vals@)[0] == strings_view(buffer@)[0]);
        }
        config.input_path = first_of(vals);
    }
    Ok(())
}

// Take the first value out of a non-empty buffer copy.
fn first_of(vals: Vec<String>) -> (r: String)
    requires
        vals@.len() >= 1,
    ensures
        r@ == vals@[0]@,
{
    let mut vals = vals;
    let r = vals.remove(0);
    r
}

/// The running state of the argument scan: the configuration so far, the
/// parameter token being collected, and its buffered values.
pub ghost struct ArgState {
    pub cfg: ConfigView,
    pub token: Seq<char>,
    pub buffer: Seq<Seq<char>>,
}

/// One argument element: a `-` element flushes the pending token and starts a
/// new one (or none, when it is a bare `-`); anything else is buffered.
pub open spec fn args_step(st: ArgState, elem: Seq<char>) -> Result<ArgState, ConfigError> {
    if elem.len() > 0 && elem[0] == '-' {
        match process_token_spec(st.token, st.cfg, st.buffer) {
            Err(e) => Err(e),
            Ok(cfg2) => if elem.len() < 2 {
                Ok(ArgState { cfg: cfg2, token: st.token, buffer: st.buffer })
            } else {
                Ok(ArgState { cfg: cfg2, token: seq![elem[1]], buffer: Seq::empty() })
            },
        }
    } else {
        Ok(ArgState { cfg: st.cfg, token: st.token, buffer: st.buffer.push(elem) })
    }
}

/// The argument scan folded over the elements after the program name.
pub open spec fn args_fold(st: ArgState, elems: Seq<Seq<char>>) -> Result<ArgState, ConfigError>
    decreases elems.len(),
{
    if elems.len() == 0 {
        Ok(st)
    } else {
        match args_fold(st, elems.drop_last()) {
            Err(e) => Err(e),
            Ok(st2) => args_step(st2, elems.last()),
        }
    }
}

/// The whole argument list turned into a configuration: defaults, the first
/// element as the program name, the scan, and a final flush of the pending
/// token.
pub open spec fn process_args_spec(args: Seq<Seq<char>>) -> Result<ConfigView, ConfigError> {
    if args.len() == 0 {
        Ok(default_config_view())
    } else {
        let st0 = ArgState {
            cfg: ConfigView { me: args[0], ..default_config_view() },
            token: ""@,
            buffer: Seq::empty(),
        };
        match args_fold(st0, args.skip(1)) {
            Err(e) => Err(e),
            Ok(st) => process_token_spec(st.token, st.cfg, st.buffer),
        }
    }
}

/// Scan the argument list into a configuration.
#[verifier::loop_isolation(false)]
pub fn process_args(args: Vec<String>) -> (r: Result<RuntimeConfig, ConfigError>)
    ensures
        match r {
            Ok(c) => Ok::<ConfigView, ConfigError>(c@) == process_args_spec(strings_view(args@)),
            Err(e) => Err::<ConfigView, ConfigError>(e) == process_args_spec(
                strings_view(args@),
            ),
        },
{
    let ghost argviews = strings_view(args@);
    let mut out = setup_default_config();
    if args.len() == 0 {
        return Ok(out);
    }
    out.me = args[0].clone();
    let mut token: String = "".to_owned();
    let mut buffer: Vec<String> = Vec::new();
    let ghost st0 = ArgState { cfg: out@, token: ""@, buffer: Seq::empty() };
    proof {
        assert(strings_view(buffer@) =~= Seq::<Seq<char>>::empty());
        assert(argviews.skip(1).take(0) =~= Seq::<Seq<char>>::empty());
    }
    let mut i: usize = 1;
    while i < args.len()
        invariant
            1 <= i <= args@.len(),
            args_fold(st0, argviews.skip(1).take(i - 1)) == Ok::<ArgState, ConfigError>(
                ArgState { cfg: out@, token: token@, buffer: strings_view(buffer@) },
            ),
        decreases args@.len() - i,
    {
        let ghost st_pre = ArgState { cfg: out@, token: token@, buffer: strings_view(buffer@) };
        let ghost done = argviews.skip(1).take(i - 1);
        proof {
            assert(argviews.skip(1).take(i as int).drop_last() =~= done);
            assert(argviews.skip(1).take(i as int).last() == argviews[i as int]);
            assert(argviews[i as int] == args@[i as int]@);
        }
        let elem = &args[i];
        let n = elem.unicode_len();
        if n > 0 && elem.get_char(0) == '-' {
            match process_token(token.as_str(), &mut out, &buffer) {
                Ok(()) => {},
                Err(e) => {
                    proof {
                        lemma_args_fold_err(st0, argviews.skip(1), i - 1, e);
                    }
                    return Err(e);
                },
            }
            if n >= 2 {
                let c = elem.get_char(1);
                let mut tv: Vec<char> = Vec::new();
                tv.push(c);
                token = crate::text::chars_to_string(&tv);
                buffer = Vec::new();
                proof {
                    assert(token@ =~= seq![args@[i as int]@[1]]);
                    assert(strings_view(buffer@) =~= Seq::<Seq<char>>::empty());
                }
            }
        } else {
            buffer.push(elem.clone());
            proof {
                assert(strings_view(buffer@) =~= st_pre.buffer.push(args@[i as int]@));
            }
        }
        i = i + 1;
    }
    proof {
        assert(argviews.skip(1).take(argviews.skip(1).len() as int) =~= argviews.skip(1));
    }
    match process_token(token.as_str(), &mut out, &buffer) {
        Ok(()) => Ok(out),
        Err(e) => Err(e),
    }
}

/// An error during the scan of a prefix is the error of any longer scan.
proof fn lemma_args_fold_err(st0: ArgState, elems: Seq<Seq<char>>, i: int, e: ConfigError)
    requires
        0 <= i < elems.len(),
        ({
            match args_fold(st0, elems.take(i)) {
                Ok(st) => args_step(st, elems[i]) == Err::<ArgState, ConfigError>(e),
                Err(_) => false,
            }
        }),
    ensures
        forall|k: int|
            i < k <= elems.len() ==> args_fold(st0, #[trigger] elems.take(k)) == Err::<
                ArgState,
                ConfigError,
            >(e),
    decreases elems.len(),
{
    assert forall|k: int|
        i < k <= elems.len() implies args_fold(st0, #[trigger] elems.take(k)) == Err::<
        ArgState,
        ConfigError,
    >(e) by {
        lemma_args_fold_err_one(st0, elems, i, k, e);
    }
}

proof fn lemma_args_fold_err_one(st0: ArgState, elems: Seq<Seq<char>>, i: int, k: int, e: ConfigError)
    requires
        0 <= i < k <= elems.len(),
        ({
            match args_fold(st0, elems.take(i)) {
                Ok(st) => args_step(st, elems[i]) == Err::<ArgState, ConfigError>(e),
                Err(_) => false,
            }
        }),
    ensures
        args_fold(st0, elems.take(k)) == Err::<ArgState, ConfigError>(e),
    decreases k,
{
    if k == i + 1 {
        assert(elems.take(k).drop_last() =~= elems.take(i));
        assert(elems.take(k).last() == elems[i]);
    } else {
        lemma_args_fold_err_one(st0, elems, i, k - 1, e);
        assert(elems.take(k).drop_last() =~= elems.take(k - 1));
    }
}

} // verus!
