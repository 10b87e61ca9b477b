//! The content-file codec: regions and artifacts are written as
//! line-oriented `key value` text, one record per file. Values are escaped
//! so that any text round-trips; parsing is proved to invert encoding
//! exactly, for every record.

use vstd::prelude::*;
use crate::artifact::{Artifact, ArtifactView};
use crate::dungeon::{DungeonRegion, EnvironmentType, Portal, PortalView, RegionView};
use crate::text::{
    chars_string, decimal, digit_char, digit_value, is_digit_char, push_decimal, str_chars,
};

verus! {

/// A whole load failed: a file could not be read, or one file's content
/// is not a well-formed record. The offending file is named.
#[derive(Debug)]
pub enum LoadError {
    Unreadable(String),
    Malformed(String),
}

/// A record could not be persisted: the target file already exists (never
/// silently overwritten), or the write itself failed.
#[derive(Debug)]
pub enum WriteError {
    AlreadyExists(String),
    Io(String),
}

/// How one character is written inside a field value: backslash and
/// newline are escaped, everything else stands for itself.
pub open spec fn esc_char(c: char) -> Seq<char> {
    if c == '\\' {
        seq!['\\', '\\']
    } else if c == '\n' {
        seq!['\\', 'n']
    } else {
        seq![c]
    }
}

/// The escaped form of a field value: newline-free, whatever the value.
pub open spec fn escape(s: Seq<char>) -> Seq<char>
    decreases s.len(),
{
    if s.len() == 0 {
        Seq::empty()
    } else {
        esc_char(s[0]) + escape(s.drop_first())
    }
}

/// The value whose escaped form is `s`, when `s` is one.
pub open spec fn unescape(s: Seq<char>) -> Option<Seq<char>>
    decreases s.len(),
{
    if s.len() == 0 {
        Some(Seq::empty())
    } else if s[0] == '\\' {
        if s.len() >= 2 {
            let d = if s[1] == '\\' {
                Some('\\')
            } else if s[1] == 'n' {
                Some('\n')
            } else {
                None
            };
            match d {
                Some(c) => match unescape(s.skip(2)) {
                    Some(rest) => Some(seq![c] + rest),
                    None => None,
                },
                None => None,
            }
        } else {
            None
        }
    } else if s[0] == '\n' {
        None
    } else {
        match unescape(s.drop_first()) {
            Some(rest) => Some(seq![s[0]] + rest),
            None => None,
        }
    }
}

/// Escaping distributes over concatenation.
pub proof fn lemma_escape_app(a: Seq<char>, b: Seq<char>)
    ensures
        escape(a + b) == escape(a) + escape(b),
    decreases a.len(),
{
    if a.len() == 0 {
        assert(a + b =~= b);
        assert(escape(a) + escape(b) =~= escape(b));
    } else {
        lemma_escape_app(a.drop_first(), b);
        assert((a + b).drop_first() =~= a.drop_first() + b);
        assert(esc_char(a[0]) + (escape(a.drop_first()) + escape(b)) =~= (esc_char(a[0])
            + escape(a.drop_first())) + escape(b));
    }
}

/// An escaped value never holds a raw newline.
pub proof fn lemma_escape_no_newline(s: Seq<char>)
    ensures
        forall|i: int| 0 <= i < escape(s).len() ==> escape(s)[i] != '\n',
    decreases s.len(),
{
    if s.len() > 0 {
        lemma_escape_no_newline(s.drop_first());
        assert forall|i: int| 0 <= i < escape(s).len() implies escape(s)[i] != '\n' by {
            assert(escape(s) == esc_char(s[0]) + escape(s.drop_first()));
            if i < esc_char(s[0]).len() {
                assert(escape(s)[i] == esc_char(s[0])[i]);
            } else {
                assert(escape(s)[i] == escape(s.drop_first())[i - esc_char(s[0]).len()]);
            }
        }
    }
}

/// Unescaping inverts escaping, for every value.
pub proof fn lemma_unescape_escape(s: Seq<char>)
    ensures
        unescape(escape(s)) == Some(s),
    decreases s.len(),
{
    if s.len() > 0 {
        lemma_unescape_escape(s.drop_first());
        let e = escape(s);
        assert(e == esc_char(s[0]) + escape(s.drop_first()));
        if s[0] == '\\' || s[0] == '\n' {
            assert(e.skip(2) =~= escape(s.drop_first()));
            assert(seq![s[0]] + s.drop_first() =~= s);
        } else {
            assert(e.drop_first() =~= escape(s.drop_first()));
            assert(seq![s[0]] + s.drop_first() =~= s);
        }
    }
}

/// The number written as the digit string `s` (most significant first).
pub open spec fn dec_value(s: Seq<char>) -> nat
    decreases s.len(),
{
    if s.len() == 0 {
        0
    } else {
        dec_value(s.drop_last()) * 10 + digit_value(s.last())
    }
}

/// Reading back a decimal rendering gives the number itself.
pub proof fn lemma_dec_value_decimal(n: nat)
    ensures
        dec_value(decimal(n)) == n,
    decreases n,
{
    if n < 10 {
        assert(decimal(n) == seq![digit_char(n)]);
        assert(decimal(n).drop_last() =~= Seq::<char>::empty());
        assert(dec_value(Seq::<char>::empty()) == 0);
        assert(dec_value(decimal(n)) == dec_value(decimal(n).drop_last()) * 10 + digit_value(
            decimal(n).last(),
        ));
        assert(digit_value(digit_char(n)) == n);
    } else {
        lemma_dec_value_decimal(n / 10);
        assert(decimal(n) == decimal(n / 10).push(digit_char(n % 10)));
        assert(decimal(n).drop_last() =~= decimal(n / 10));
        assert(decimal(n).last() == digit_char(n % 10));
        assert(dec_value(decimal(n)) == dec_value(decimal(n).drop_last()) * 10 + digit_value(
            decimal(n).last(),
        ));
        assert(digit_value(digit_char(n % 10)) == n % 10);
        assert(n == (n / 10) * 10 + n % 10);
    }
}

/// A digit string is worth at least any of its prefixes.
pub proof fn lemma_dec_value_prefix(s: Seq<char>, k: int)
    requires
        0 <= k <= s.len(),
    ensures
        dec_value(s.take(k)) <= dec_value(s),
    decreases s.len() - k,
{
    if k < s.len() {
        lemma_dec_value_prefix(s, k + 1);
        assert(s.take(k + 1).drop_last() =~= s.take(k));
        assert(dec_value(s.take(k)) <= dec_value(s.take(k + 1)));
    } else {
        assert(s.take(k) =~= s);
    }
}

/// The position of the first newline of `s`, if any.
pub open spec fn find_newline(s: Seq<char>) -> Option<int>
    decreases s.len(),
{
    if s.len() == 0 {
        None
    } else if s[0] == '\n' {
        Some(0)
    } else {
        match find_newline(s.drop_first()) {
            Some(i) => Some(i + 1),
            None => None,
        }
    }
}

/// What `find_newline` returns: the first newline position, or proof that
/// there is none.
pub proof fn lemma_find_newline_char(s: Seq<char>)
    ensures
        match find_newline(s) {
            Some(n) => 0 <= n < s.len() && s[n] == '\n' && forall|m: int|
                0 <= m < n ==> s[m] != '\n',
            None => forall|m: int| 0 <= m < s.len() ==> s[m] != '\n',
        },
    decreases s.len(),
{
    if s.len() > 0 && s[0] != '\n' {
        lemma_find_newline_char(s.drop_first());
        match find_newline(s) {
            Some(n) => {
                assert(s[n] == s.drop_first()[n - 1]);
                assert forall|m: int| 0 <= m < n implies s[m] != '\n' by {
                    if m > 0 {
                        assert(s[m] == s.drop_first()[m - 1]);
                    }
                }
            },
            None => {
                assert forall|m: int| 0 <= m < s.len() implies s[m] != '\n' by {
                    if m > 0 {
                        assert(s[m] == s.drop_first()[m - 1]);
                    }
                }
            },
        }
    }
}

/// When a newline-free prefix is followed by a newline, the first newline
/// is exactly there.
pub proof fn lemma_find_newline_after(p: Seq<char>, r: Seq<char>)
    requires
        forall|i: int| 0 <= i < p.len() ==> p[i] != '\n',
    ensures
        find_newline(p + seq!['\n'] + r) == Some(p.len() as int),
    decreases p.len(),
{
    let s = p + seq!['\n'] + r;
    if p.len() == 0 {
        assert(s[0] == '\n');
    } else {
        lemma_find_newline_after(p.drop_first(), r);
        assert(s.drop_first() =~= p.drop_first() + seq!['\n'] + r);
        assert(s[0] == p[0]);
    }
}

/// One field line: the key (with its trailing space), the escaped value,
/// and a newline.
pub open spec fn field_line(key: Seq<char>, v: Seq<char>) -> Seq<char> {
    key + escape(v) + seq!['\n']
}

/// `p` is a prefix of `s`.
pub open spec fn starts_with(s: Seq<char>, p: Seq<char>) -> bool {
    s.len() >= p.len() && s.take(p.len() as int) == p
}

/// Parse one `key`-field line off the front of `s`: the unescaped value
/// and what follows the line.
pub open spec fn parse_field(key: Seq<char>, s: Seq<char>) -> Option<(Seq<char>, Seq<char>)> {
    if starts_with(s, key) {
        let t = s.skip(key.len() as int);
        match find_newline(t) {
            Some(n) => match unescape(t.take(n)) {
                Some(v) => Some((v, t.skip(n + 1))),
                None => None,
            },
            None => None,
        }
    } else {
        None
    }
}

/// Parsing a field line it wrote gives back the value and the rest.
pub proof fn lemma_parse_field_round(key: Seq<char>, v: Seq<char>, rest: Seq<char>)
    ensures
        parse_field(key, field_line(key, v) + rest) == Some((v, rest)),
{
    let s = field_line(key, v) + rest;
    assert(s.take(key.len() as int) =~= key);
    let t = s.skip(key.len() as int);
    assert(t =~= escape(v) + seq!['\n'] + rest);
    lemma_escape_no_newline(v);
    lemma_find_newline_after(escape(v), rest);
    assert(find_newline(t) == Some(escape(v).len() as int));
    assert(t.take(escape(v).len() as int) =~= escape(v));
    lemma_unescape_escape(v);
    assert(t.skip(escape(v).len() as int + 1) =~= rest);
}

/// The environment line of a region record.
pub open spec fn env_line(e: EnvironmentType) -> Seq<char> {
    match e {
        EnvironmentType::Fantasy => "environment Fantasy\n"@,
        EnvironmentType::Technology => "environment Technology\n"@,
        EnvironmentType::RealLife => "environment RealLife\n"@,
        EnvironmentType::Hybrid => "environment Hybrid\n"@,
    }
}

/// Parse the environment line off the front of `s`.
pub open spec fn parse_env(s: Seq<char>) -> Option<(EnvironmentType, Seq<char>)> {
    if starts_with(s, env_line(EnvironmentType::Fantasy)) {
        Some(
            (
                EnvironmentType::Fantasy,
                s.skip(env_line(EnvironmentType::Fantasy).len() as int),
            ),
        )
    } else if starts_with(s, env_line(EnvironmentType::Technology)) {
        Some(
            (
                EnvironmentType::Technology,
                s.skip(env_line(EnvironmentType::Technology).len() as int),
            ),
        )
    } else if starts_with(s, env_line(EnvironmentType::RealLife)) {
        Some(
            (
                EnvironmentType::RealLife,
                s.skip(env_line(EnvironmentType::RealLife).len() as int),
            ),
        )
    } else if starts_with(s, env_line(EnvironmentType::Hybrid)) {
        Some(
            (
                EnvironmentType::Hybrid,
                s.skip(env_line(EnvironmentType::Hybrid).len() as int),
            ),
        )
    } else {
        None
    }
}

/// The four environment lines differ where the tag name starts.
proof fn lemma_env_lines_distinct()
    ensures
        env_line(EnvironmentType::Fantasy)[12] == 'F',
        env_line(EnvironmentType::Technology)[12] == 'T',
        env_line(EnvironmentType::RealLife)[12] == 'R',
        env_line(EnvironmentType::Hybrid)[12] == 'H',
        env_line(EnvironmentType::Fantasy).len() == 20,
        env_line(EnvironmentType::Technology).len() == 23,
        env_line(EnvironmentType::RealLife).len() == 21,
        env_line(EnvironmentType::Hybrid).len() == 19,
{
    reveal_strlit("environment Fantasy\n");
    reveal_strlit("environment Technology\n");
    reveal_strlit("environment RealLife\n");
    reveal_strlit("environment Hybrid\n");
}

/// Parsing an environment line it wrote gives back the tag and the rest.
pub proof fn lemma_parse_env_round(e: EnvironmentType, rest: Seq<char>)
    ensures
        parse_env(env_line(e) + rest) == Some((e, rest)),
{
    lemma_env_lines_distinct();
    let s = env_line(e) + rest;
    assert(s.take(env_line(e).len() as int) =~= env_line(e));
    assert(s.skip(env_line(e).len() as int) =~= rest);
    assert(s[12] == env_line(e)[12]);
    assert forall|o: EnvironmentType| o != e implies !starts_with(s, env_line(o)) by {
        if starts_with(s, env_line(o)) {
            assert(s[12] == env_line(o)[12]);
        }
    }
}

/// The level line of a portal.
pub open spec fn level_line(lvl: u32) -> Seq<char> {
    "portal_level "@ + decimal(lvl as nat) + seq!['\n']
}

/// Parse the level line off the front of `s`: a non-empty run of digits
/// worth at most `u32::MAX`.
pub open spec fn parse_level(s: Seq<char>) -> Option<(u32, Seq<char>)> {
    let key = "portal_level "@;
    if starts_with(s, key) {
        let t = s.skip(key.len() as int);
        match find_newline(t) {
            Some(n) => {
                let digits = t.take(n);
                if digits.len() >= 1 && (forall|i: int|
                    0 <= i < digits.len() ==> is_digit_char(#[trigger] digits[i])) && dec_value(
                    digits,
                ) <= u32::MAX {
                    Some((dec_value(digits) as u32, t.skip(n + 1)))
                } else {
                    None
                }
            },
            None => None,
        }
    } else {
        None
    }
}

/// Parsing a level line it wrote gives back the level and the rest.
pub proof fn lemma_parse_level_round(lvl: u32, rest: Seq<char>)
    ensures
        parse_level(level_line(lvl) + rest) == Some((lvl, rest)),
{
    let key = "portal_level "@;
    let s = level_line(lvl) + rest;
    assert(s.take(key.len() as int) =~= key);
    let t = s.skip(key.len() as int);
    assert(t =~= decimal(lvl as nat) + seq!['\n'] + rest);
    crate::text::lemma_decimal_len(lvl as nat);
    assert(forall|i: int|
        0 <= i < decimal(lvl as nat).len() ==> #[trigger] decimal(lvl as nat)[i] != '\n');
    lemma_find_newline_after(decimal(lvl as nat), rest);
    assert(find_newline(t) == Some(decimal(lvl as nat).len() as int));
    assert(t.take(decimal(lvl as nat).len() as int) =~= decimal(lvl as nat));
    lemma_dec_value_decimal(lvl as nat);
    assert(t.skip(decimal(lvl as nat).len() as int + 1) =~= rest);
}

/// The anchor line, present only when the region has an anchor.
pub open spec fn anchor_lines(a: Option<Seq<char>>) -> Seq<char> {
    match a {
        Some(v) => field_line("anchor "@, v),
        None => Seq::empty(),
    }
}

/// The four lines of one portal.
pub open spec fn portal_enc(p: PortalView) -> Seq<char> {
    field_line("portal "@, p.id) + field_line("portal_name "@, p.name) + field_line(
        "portal_leads_to "@,
        p.leads_to,
    ) + level_line(p.required_level)
}

/// The portal lines of a region, in portal order.
pub open spec fn portals_enc(ps: Seq<PortalView>) -> Seq<char>
    decreases ps.len(),
{
    if ps.len() == 0 {
        Seq::empty()
    } else {
        portal_enc(ps[0]) + portals_enc(ps.drop_first())
    }
}

/// The full on-disk form of one region record.
pub open spec fn encode_region_chars(r: RegionView) -> Seq<char> {
    field_line("id "@, r.id) + field_line("name "@, r.name) + field_line(
        "description "@,
        r.description,
    ) + env_line(r.environment) + anchor_lines(r.anchor_point) + portals_enc(r.portals)
}

/// Parse one portal (four lines) off the front of `s`.
pub open spec fn parse_portal(s: Seq<char>) -> Option<(PortalView, Seq<char>)> {
    match parse_field("portal "@, s) {
        Some((pid, s1)) => match parse_field("portal_name "@, s1) {
            Some((pname, s2)) => match parse_field("portal_leads_to "@, s2) {
                Some((pl, s3)) => match parse_level(s3) {
                    Some((lvl, s4)) => Some(
                        (
                            PortalView {
                                id: pid,
                                name: pname,
                                leads_to: pl,
                                required_level: lvl,
                            },
                            s4,
                        ),
                    ),
                    None => None,
                },
                None => None,
            },
            None => None,
        },
        None => None,
    }
}

/// Parsing a portal it wrote gives back the portal and the rest.
pub proof fn lemma_parse_portal_round(p: PortalView, rest: Seq<char>)
    ensures
        parse_portal(portal_enc(p) + rest) == Some((p, rest)),
        portal_enc(p).len() > 0,
{
    let r1 = field_line("portal_name "@, p.name) + (field_line("portal_leads_to "@, p.leads_to)
        + (level_line(p.required_level) + rest));
    let r2 = field_line("portal_leads_to "@, p.leads_to) + (level_line(p.required_level) + rest);
    let r3 = level_line(p.required_level) + rest;
    assert(portal_enc(p) + rest =~= field_line("portal "@, p.id) + r1);
    lemma_parse_field_round("portal "@, p.id, r1);
    assert(r1 =~= field_line("portal_name "@, p.name) + r2);
    lemma_parse_field_round("portal_name "@, p.name, r2);
    assert(r2 =~= field_line("portal_leads_to "@, p.leads_to) + r3);
    lemma_parse_field_round("portal_leads_to "@, p.leads_to, r3);
    lemma_parse_level_round(p.required_level, rest);
}

/// Parse a run of portals filling all of `s`.
pub open spec fn parse_portals(s: Seq<char>) -> Option<Seq<PortalView>>
    decreases s.len(),
{
    if s.len() == 0 {
        Some(Seq::empty())
    } else {
        match parse_portal(s) {
            Some((p, rest)) => if rest.len() < s.len() {
                match parse_portals(rest) {
                    Some(ps) => Some(seq![p] + ps),
                    None => None,
                }
            } else {
                None
            },
            None => None,
        }
    }
}

/// Parsing the portal lines it wrote gives back the portals.
pub proof fn lemma_parse_portals_round(ps: Seq<PortalView>)
    ensures
        parse_portals(portals_enc(ps)) == Some(ps),
    decreases ps.len(),
{
    if ps.len() == 0 {
        assert(portals_enc(ps) =~= Seq::<char>::empty());
    } else {
        let s = portals_enc(ps);
        let tail = portals_enc(ps.drop_first());
        lemma_parse_portal_round(ps[0], tail);
        lemma_parse_portals_round(ps.drop_first());
        assert(s.len() > 0);
        assert(seq![ps[0]] + ps.drop_first() =~= ps);
    }
}

/// Parse one region record: fixed field lines, the environment line, an
/// optional anchor line, then portal lines to the end of the text.
#[verifier::opaque]
pub open spec fn parse_region_chars(s: Seq<char>) -> Option<RegionView> {
    match parse_field("id "@, s) {
        Some((id, s1)) => match parse_field("name "@, s1) {
            Some((name, s2)) => match parse_field("description "@, s2) {
                Some((descr, s3)) => match parse_env(s3) {
                    Some((env, s4)) => if starts_with(s4, "anchor "@) {
                        match parse_field("anchor "@, s4) {
                            Some((a, s5)) => match parse_portals(s5) {
                                Some(ps) => Some(
                                    RegionView {
                                        id,
                                        name,
                                        description: descr,
                                        environment: env,
                                        portals: ps,
                                        anchor_point: Some(a),
                                    },
                                ),
                                None => None,
                            },
                            None => None,
                        }
                    } else {
                        match parse_portals(s4) {
                            Some(ps) => Some(
                                RegionView {
                                    id,
                                    name,
                                    description: descr,
                                    environment: env,
                                    portals: ps,
                                    anchor_point: None,
                                },
                            ),
                            None => None,
                        }
                    },
                    None => None,
                },
                None => None,
            },
            None => None,
        },
        None => None,
    }
}

/// Round trip: parsing the encoding of any region record gives back that
/// record, field for field, portals in order, absent anchor kept absent.
pub proof fn lemma_region_round_trip(r: RegionView)
    ensures
        parse_region_chars(encode_region_chars(r)) == Some(r),
{
    reveal(parse_region_chars);
    let r1 = field_line("name "@, r.name) + (field_line("description "@, r.description)
        + (env_line(r.environment) + (anchor_lines(r.anchor_point) + portals_enc(r.portals))));
    let r2 = field_line("description "@, r.description) + (env_line(r.environment)
        + (anchor_lines(r.anchor_point) + portals_enc(r.portals)));
    let r3 = env_line(r.environment) + (anchor_lines(r.anchor_point) + portals_enc(r.portals));
    let r4 = anchor_lines(r.anchor_point) + portals_enc(r.portals);
    assert(encode_region_chars(r) =~= field_line("id "@, r.id) + r1);
    lemma_parse_field_round("id "@, r.id, r1);
    assert(r1 =~= field_line("name "@, r.name) + r2);
    lemma_parse_field_round("name "@, r.name, r2);
    assert(r2 =~= field_line("description "@, r.description) + r3);
    lemma_parse_field_round("description "@, r.description, r3);
    assert(r3 =~= env_line(r.environment) + r4);
    lemma_parse_env_round(r.environment, r4);
    reveal_strlit("anchor ");
    reveal_strlit("portal ");
    match r.anchor_point {
        Some(a) => {
            assert(r4 =~= field_line("anchor "@, a) + portals_enc(r.portals));
            assert(r4.take("anchor "@.len() as int) =~= "anchor "@);
            assert(starts_with(r4, "anchor "@));
            lemma_parse_field_round("anchor "@, a, portals_enc(r.portals));
            lemma_parse_portals_round(r.portals);
        },
        None => {
            assert(r4 =~= portals_enc(r.portals));
            assert(!starts_with(r4, "anchor "@)) by {
                if starts_with(r4, "anchor "@) {
                    assert("anchor "@.len() == 7);
                    assert(r4.take("anchor "@.len() as int)[0] == r4[0]);
                    assert(r4[0] == "anchor "@[0]);
                    assert(r4[0] == 'a');
                    if r.portals.len() == 0 {
                        assert(r4.len() == 0);
                    } else {
                        assert(portals_enc(r.portals) == portal_enc(r.portals[0])
                            + portals_enc(r.portals.drop_first()));
                        assert(r4[0] == field_line("portal "@, r.portals[0].id)[0]);
                        assert(r4[0] == 'p');
                    }
                }
            }
            lemma_parse_portals_round(r.portals);
        },
    }
}

/// A (possibly signed) integer as decimal text.
pub open spec fn int_chars(n: int) -> Seq<char> {
    if n < 0 {
        seq!['-'] + decimal((-n) as nat)
    } else {
        decimal(n as nat)
    }
}

/// The power line of an artifact record.
pub open spec fn power_line(p: i32) -> Seq<char> {
    "power "@ + int_chars(p as int) + seq!['\n']
}

/// The magic-affinity line, present only when the artifact has one.
pub open spec fn affinity_lines(a: Option<i32>) -> Seq<char> {
    match a {
        Some(v) => "affinity "@ + int_chars(v as int) + seq!['\n'],
        None => Seq::empty(),
    }
}

/// The full on-disk form of one artifact record.
pub open spec fn encode_artifact_chars(a: ArtifactView) -> Seq<char> {
    field_line("id "@, a.id) + field_line("name "@, a.name) + field_line(
        "description "@,
        a.description,
    ) + power_line(a.power) + affinity_lines(a.magic_affinity) + field_line("rarity "@, a.rarity)
}

/// Parse a `key` line holding a signed 32-bit decimal off the front of
/// `s`.
pub open spec fn parse_i32_field(key: Seq<char>, s: Seq<char>) -> Option<(i32, Seq<char>)> {
    if starts_with(s, key) {
        let t = s.skip(key.len() as int);
        match find_newline(t) {
            Some(n) => {
                let body = t.take(n);
                let rest = t.skip(n + 1);
                if body.len() >= 1 && body[0] == '-' {
                    let digits = body.drop_first();
                    if digits.len() >= 1 && (forall|i: int|
                        0 <= i < digits.len() ==> is_digit_char(#[trigger] digits[i]))
                        && dec_value(digits) <= 2147483648 {
                        Some(((0 - dec_value(digits) as int) as i32, rest))
                    } else {
                        None
                    }
                } else if body.len() >= 1 && (forall|i: int|
                    0 <= i < body.len() ==> is_digit_char(#[trigger] body[i])) && dec_value(body)
                    <= i32::MAX {
                    Some((dec_value(body) as i32, rest))
                } else {
                    None
                }
            },
            None => None,
        }
    } else {
        None
    }
}

/// Parsing an integer line it wrote gives back the value and the rest.
pub proof fn lemma_parse_i32_round(key: Seq<char>, v: i32, rest: Seq<char>)
    ensures
        parse_i32_field(key, key + int_chars(v as int) + seq!['\n'] + rest) == Some((v, rest)),
{
    let body = int_chars(v as int);
    let s = key + body + seq!['\n'] + rest;
    assert(s.take(key.len() as int) =~= key);
    let t = s.skip(key.len() as int);
    assert(t =~= body + seq!['\n'] + rest);
    if v < 0 {
        crate::text::lemma_decimal_len((-(v as int)) as nat);
        lemma_dec_value_decimal((-(v as int)) as nat);
        assert(body.drop_first() =~= decimal((-(v as int)) as nat));
    } else {
        crate::text::lemma_decimal_len(v as nat);
        lemma_dec_value_decimal(v as nat);
    }
    assert(forall|i: int| 0 <= i < body.len() ==> #[trigger] body[i] != '\n');
    lemma_find_newline_after(body, rest);
    assert(find_newline(t) == Some(body.len() as int));
    assert(t.take(body.len() as int) =~= body);
    assert(t.skip(body.len() as int + 1) =~= rest);
}

/// Parse one artifact record; the record fills the whole text.
#[verifier::opaque]
pub open spec fn parse_artifact_chars(s: Seq<char>) -> Option<ArtifactView> {
    match parse_field("id "@, s) {
        Some((id, s1)) => match parse_field("name "@, s1) {
            Some((name, s2)) => match parse_field("description "@, s2) {
                Some((descr, s3)) => match parse_i32_field("power "@, s3) {
                    Some((power, s4)) => if starts_with(s4, "affinity "@) {
                        match parse_i32_field("affinity "@, s4) {
                            Some((aff, s5)) => match parse_field("rarity "@, s5) {
                                Some((rarity, s6)) => if s6.len() == 0 {
                                    Some(
                                        ArtifactView {
                                            id,
                                            name,
                                            description: descr,
                                            power,
                                            magic_affinity: Some(aff),
                                            rarity,
                                        },
                                    )
                                } else {
                                    None
                                },
                                None => None,
                            },
                            None => None,
                        }
                    } else {
                        match parse_field("rarity "@, s4) {
                            Some((rarity, s6)) => if s6.len() == 0 {
                                Some(
                                    ArtifactView {
                                        id,
                                        name,
                                        description: descr,
                                        power,
                                        magic_affinity: None,
                                        rarity,
                                    },
                                )
                            } else {
                                None
                            },
                            None => None,
                        }
                    },
                    None => None,
                },
                None => None,
            },
            None => None,
        },
        None => None,
    }
}

/// Round trip: parsing the encoding of any artifact record gives back
/// that record, an absent affinity kept absent.
pub proof fn lemma_artifact_round_trip(a: ArtifactView)
    ensures
        parse_artifact_chars(encode_artifact_chars(a)) == Some(a),
{
    reveal(parse_artifact_chars);
    let r1 = field_line("name "@, a.name) + (field_line("description "@, a.description)
        + (power_line(a.power) + (affinity_lines(a.magic_affinity) + field_line(
        "rarity "@,
        a.rarity,
    ))));
    let r2 = field_line("description "@, a.description) + (power_line(a.power) + (affinity_lines(
        a.magic_affinity,
    ) + field_line("rarity "@, a.rarity)));
    let r3 = power_line(a.power) + (affinity_lines(a.magic_affinity) + field_line(
        "rarity "@,
        a.rarity,
    ));
    let r4 = affinity_lines(a.magic_affinity) + field_line("rarity "@, a.rarity);
    assert(encode_artifact_chars(a) =~= field_line("id "@, a.id) + r1);
    lemma_parse_field_round("id "@, a.id, r1);
    assert(r1 =~= field_line("name "@, a.name) + r2);
    lemma_parse_field_round("name "@, a.name, r2);
    assert(r2 =~= field_line("description "@, a.description) + r3);
    lemma_parse_field_round("description "@, a.description, r3);
    assert(r3 =~= "power "@ + int_chars(a.power as int) + seq!['\n'] + r4);
    lemma_parse_i32_round("power "@, a.power, r4);
    reveal_strlit("affinity ");
    reveal_strlit("rarity ");
    match a.magic_affinity {
        Some(v) => {
            let r5 = field_line("rarity "@, a.rarity);
            assert(r4 =~= "affinity "@ + int_chars(v as int) + seq!['\n'] + r5);
            assert(r4.take("affinity "@.len() as int) =~= "affinity "@);
            assert(starts_with(r4, "affinity "@));
            lemma_parse_i32_round("affinity "@, v, r5);
            assert(r5 =~= field_line("rarity "@, a.rarity) + Seq::<char>::empty());
            lemma_parse_field_round("rarity "@, a.rarity, Seq::<char>::empty());
        },
        None => {
            assert(r4 =~= field_line("rarity "@, a.rarity));
            assert(!starts_with(r4, "affinity "@)) by {
                if starts_with(r4, "affinity "@) {
                    assert("affinity "@.len() == 9);
                    assert(r4.take("affinity "@.len() as int)[0] == r4[0]);
                    assert(r4[0] == "affinity "@[0]);
                    assert(r4[0] == "rarity "@[0]);
                }
            }
            assert(r4 =~= field_line("rarity "@, a.rarity) + Seq::<char>::empty());
            lemma_parse_field_round("rarity "@, a.rarity, Seq::<char>::empty());
        },
    }
}

fn push_str_chars(out: &mut Vec<char>, s: &str)
    ensures
        final(out)@ == old(out)@ + s@,
{
    let mut v = str_chars(s);
    out.append(&mut v);
}

fn push_escaped(out: &mut Vec<char>, v: &str)
    ensures
        final(out)@ == old(out)@ + escape(v@),
{
    let chars = str_chars(v);
    let n = chars.len();
    let mut i: usize = 0;
    while i < n
        invariant
            i <= n,
            n == chars@.len(),
            chars@ == v@,
            out@ == old(out)@ + escape(v@.take(i as int)),
        decreases n - i,
    {
        let c = chars[i];
        if c == '\\' {
            out.push('\\');
            out.push('\\');
        } else if c == '\n' {
            out.push('\\');
            out.push('n');
        } else {
            out.push(c);
        }
        proof {
            lemma_escape_app(v@.take(i as int), seq![v@[i as int]]);
            assert(v@.take(i + 1 as int) =~= v@.take(i as int) + seq![v@[i as int]]);
            assert(seq![v@[i as int]].drop_first() =~= Seq::<char>::empty());
            assert(escape(Seq::<char>::empty()) == Seq::<char>::empty());
            assert(escape(seq![v@[i as int]]) == esc_char(seq![v@[i as int]][0]) + escape(
                seq![v@[i as int]].drop_first(),
            ));
            assert(escape(seq![v@[i as int]]) =~= esc_char(v@[i as int]));
            assert(out@ =~= old(out)@ + escape(v@.take(i + 1 as int)));
        }
        i = i + 1;
    }
    proof {
        assert(v@.take(n as int) =~= v@);
    }
}

fn push_field_line(out: &mut Vec<char>, key: &str, v: &str)
    ensures
        final(out)@ == old(out)@ + field_line(key@, v@),
{
    push_str_chars(out, key);
    push_escaped(out, v);
    out.push('\n');
    proof {
        assert(out@ =~= old(out)@ + field_line(key@, v@));
    }
}

fn push_i32_line(out: &mut Vec<char>, key: &str, v: i32)
    ensures
        final(out)@ == old(out)@ + key@ + int_chars(v as int) + seq!['\n'],
{
    push_str_chars(out, key);
    if v < 0 {
        out.push('-');
        let m: u64 = (-(v as i64)) as u64;
        push_decimal(out, m);
    } else {
        push_decimal(out, v as u64);
    }
    out.push('\n');
    proof {
        assert(out@ =~= old(out)@ + key@ + int_chars(v as int) + seq!['\n']);
    }
}

proof fn lemma_portals_enc_snoc(ps: Seq<PortalView>, p: PortalView)
    ensures
        portals_enc(ps.push(p)) == portals_enc(ps) + portal_enc(p),
    decreases ps.len(),
{
    if ps.len() == 0 {
        assert(ps.push(p)[0] == p);
        assert(ps.push(p).drop_first() =~= Seq::<PortalView>::empty());
        assert(portals_enc(Seq::<PortalView>::empty()) == Seq::<char>::empty());
        assert(portals_enc(ps.push(p)) == portal_enc(p) + portals_enc(ps.push(p).drop_first()));
        assert(portals_enc(ps.push(p)) =~= portals_enc(ps) + portal_enc(p));
    } else {
        assert(ps.push(p)[0] == ps[0]);
        assert(ps.push(p).drop_first() =~= ps.drop_first().push(p));
        lemma_portals_enc_snoc(ps.drop_first(), p);
        assert(portals_enc(ps.push(p)) =~= portals_enc(ps) + portal_enc(p));
    }
}

/// The on-disk text of one region record; exactly `encode_region_chars`
/// of the record's value.
pub fn encode_region(r: &DungeonRegion) -> (s: String)
    ensures
        s@ == encode_region_chars(r.deep_view()),
{
    let mut out: Vec<char> = Vec::new();
    push_field_line(&mut out, "id ", r.id.as_str());
    push_field_line(&mut out, "name ", r.name.as_str());
    push_field_line(&mut out, "description ", r.description.as_str());
    match r.environment {
        EnvironmentType::Fantasy => push_str_chars(&mut out, "environment Fantasy\n"),
        EnvironmentType::Technology => push_str_chars(&mut out, "environment Technology\n"),
        EnvironmentType::RealLife => push_str_chars(&mut out, "environment RealLife\n"),
        EnvironmentType::Hybrid => push_str_chars(&mut out, "environment Hybrid\n"),
    }
    if let Some(a) = &r.anchor_point {
        push_field_line(&mut out, "anchor ", a.as_str());
    }
    let ghost head = out@;
    let m = r.portals.len();
    let mut j: usize = 0;
    while j < m
        invariant
            j <= m,
            m == r.portals@.len(),
            out@ == head + portals_enc(r.portals.deep_view().take(j as int)),
        decreases m - j,
    {
        let p = &r.portals[j];
        push_field_line(&mut out, "portal ", p.id.as_str());
        push_field_line(&mut out, "portal_name ", p.name.as_str());
        push_field_line(&mut out, "portal_leads_to ", p.leads_to.as_str());
        push_str_chars(&mut out, "portal_level ");
        push_decimal(&mut out, p.required_level as u64);
        out.push('\n');
        proof {
            let ghost pv = r.portals.deep_view()[j as int];
            lemma_portals_enc_snoc(r.portals.deep_view().take(j as int), pv);
            assert(r.portals.deep_view().take(j + 1 as int) =~= r.portals.deep_view().take(
                j as int,
            ).push(pv));
            assert(out@ =~= head + portals_enc(r.portals.deep_view().take(j + 1 as int)));
        }
        j = j + 1;
    }
    proof {
        assert(r.portals.deep_view().take(m as int) =~= r.portals.deep_view());
        assert(out@ =~= encode_region_chars(r.deep_view()));
    }
    chars_string(&out)
}

/// The on-disk text of one artifact record; exactly
/// `encode_artifact_chars` of the record's value.
pub fn encode_artifact(a: &Artifact) -> (s: String)
    ensures
        s@ == encode_artifact_chars(a.deep_view()),
{
    let mut out: Vec<char> = Vec::new();
    push_field_line(&mut out, "id ", a.id.as_str());
    push_field_line(&mut out, "name ", a.name.as_str());
    push_field_line(&mut out, "description ", a.description.as_str());
    push_i32_line(&mut out, "power ", a.power);
    if let Some(v) = a.magic_affinity {
        push_i32_line(&mut out, "affinity ", v);
    }
    push_field_line(&mut out, "rarity ", a.rarity.as_str());
    proof {
        assert(out@ =~= encode_artifact_chars(a.deep_view()));
    }
    chars_string(&out)
}

fn starts_with_at(v: &Vec<char>, pos: usize, key: &str) -> (b: bool)
    requires
        pos <= v@.len(),
    ensures
        b == starts_with(v@.skip(pos as int), key@),
        b ==> pos + key@.len() <= v@.len(),
{
    let kc = str_chars(key);
    let k = kc.len();
    let n = v.len();
    if n - pos < k {
        return false;
    }
    let mut i: usize = 0;
    while i < k
        invariant
            i <= k,
            k == key@.len(),
            kc@ == key@,
            n == v@.len(),
            pos + k <= n,
            forall|a: int| 0 <= a < i ==> v@.skip(pos as int)[a] == key@[a],
        decreases k - i,
    {
        if v[pos + i] != kc[i] {
            proof {
                assert(v@.skip(pos as int)[i as int] == v@[pos + i]);
                if starts_with(v@.skip(pos as int), key@) {
                    assert(v@.skip(pos as int).take(k as int)[i as int] == key@[i as int]);
                }
            }
            return false;
        }
        proof {
            assert(v@.skip(pos as int)[i as int] == v@[pos + i]);
        }
        i = i + 1;
    }
    proof {
        assert(v@.skip(pos as int).take(k as int) =~= key@);
    }
    true
}

fn find_newline_at(v: &Vec<char>, pos: usize) -> (r: Option<usize>)
    requires
        pos <= v@.len(),
    ensures
        match r {
            Some(n) => find_newline(v@.skip(pos as int)) == Some(n as int) && pos + n < v@.len(),
            None => find_newline(v@.skip(pos as int)) == None::<int>,
        },
{
    let len = v.len();
    let mut i: usize = pos;
    while i < len
        invariant
            pos <= i <= len,
            len == v@.len(),
            forall|m: int| pos <= m < i ==> v@[m] != '\n',
        decreases len - i,
    {
        if v[i] == '\n' {
            proof {
                let s = v@.skip(pos as int);
                lemma_find_newline_char(s);
                assert(s[i - pos] == '\n');
                assert forall|m: int| 0 <= m < i - pos implies s[m] != '\n' by {
                    assert(s[m] == v@[pos + m]);
                }
                match find_newline(s) {
                    Some(n) => {
                        if n < i - pos {
                            assert(v@[pos + n] == s[n]);
                        }
                        if n > i - pos {
                            assert(s[i - pos] != '\n');
                        }
                    },
                    None => {
                        assert(s[i - pos] != '\n');
                    },
                }
            }
            return Some(i - pos);
        }
        i = i + 1;
    }
    proof {
        let s = v@.skip(pos as int);
        lemma_find_newline_char(s);
        match find_newline(s) {
            Some(n) => {
                assert(s[n] == v@[pos + n]);
            },
            None => {},
        }
    }
    None
}

fn unescape_range(v: &Vec<char>, from: usize, to: usize) -> (r: Option<String>)
    requires
        from <= to <= v@.len(),
    ensures
        match r {
            Some(s) => unescape(v@.subrange(from as int, to as int)) == Some(s@),
            None => unescape(v@.subrange(from as int, to as int)) == None::<Seq<char>>,
        },
{
    let ghost whole = v@.subrange(from as int, to as int);
    let mut acc: Vec<char> = Vec::new();
    let mut i: usize = from;
    while i < to
        invariant
            from <= i <= to <= v@.len(),
            whole == v@.subrange(from as int, to as int),
            match unescape(v@.subrange(i as int, to as int)) {
                Some(tail) => unescape(whole) == Some(acc@ + tail),
                None => unescape(whole) == None::<Seq<char>>,
            },
        decreases to - i,
    {
        let ghost s_i = v@.subrange(i as int, to as int);
        let ghost acc_pre = acc@;
        let c = v[i];
        proof {
            assert(s_i[0] == c);
        }
        if c == '\\' {
            if i + 1 >= to {
                proof {
                    assert(s_i.len() == 1);
                    assert(unescape(s_i) == None::<Seq<char>>);
                }
                return None;
            }
            let d = v[i + 1];
            proof {
                assert(s_i[1] == d);
            }
            let dec: char;
            if d == '\\' {
                dec = '\\';
            } else if d == 'n' {
                dec = '\n';
            } else {
                proof {
                    assert(unescape(s_i) == None::<Seq<char>>);
                }
                return None;
            }
            acc.push(dec);
            proof {
                assert(s_i.skip(2) =~= v@.subrange(i as int + 2, to as int));
                match unescape(v@.subrange(i as int + 2, to as int)) {
                    Some(t2) => {
                        assert(unescape(s_i) == Some(seq![dec] + t2));
                        assert(acc_pre + (seq![dec] + t2) =~= acc@ + t2);
                    },
                    None => {
                        assert(unescape(s_i) == None::<Seq<char>>);
                    },
                }
            }
            i = i + 2;
        } else if c == '\n' {
            proof {
                assert(unescape(s_i) == None::<Seq<char>>);
            }
            return None;
        } else {
            acc.push(c);
            proof {
                assert(s_i.drop_first() =~= v@.subrange(i as int + 1, to as int));
                match unescape(v@.subrange(i as int + 1, to as int)) {
                    Some(t2) => {
                        assert(unescape(s_i) == Some(seq![c] + t2));
                        assert(acc_pre + (seq![c] + t2) =~= acc@ + t2);
                    },
                    None => {
                        assert(unescape(s_i) == None::<Seq<char>>);
                    },
                }
            }
            i = i + 1;
        }
    }
    proof {
        assert(v@.subrange(i as int, to as int) =~= Seq::<char>::empty());
        assert(unescape(Seq::<char>::empty()) == Some(Seq::<char>::empty()));
        assert(acc@ + Seq::<char>::empty() =~= acc@);
    }
    Some(chars_string(&acc))
}

fn parse_field_at(v: &Vec<char>, pos: usize, key: &str) -> (r: Option<(String, usize)>)
    requires
        pos <= v@.len(),
    ensures
        match r {
            Some(p) => {
                &&& parse_field(key@, v@.skip(pos as int)) == Some((p.0@, v@.skip(p.1 as int)))
                &&& pos < p.1 <= v@.len()
            },
            None => parse_field(key@, v@.skip(pos as int)) == None::<(Seq<char>, Seq<char>)>,
        },
{
    if !starts_with_at(v, pos, key) {
        return None;
    }
    let kc = str_chars(key);
    let vn = v.len();
    proof {
        assert(pos + kc@.len() <= vn);
    }
    let pos2 = pos + kc.len();
    proof {
        assert(v@.skip(pos as int).skip(key@.len() as int) =~= v@.skip(pos2 as int));
    }
    match find_newline_at(v, pos2) {
        Some(n) => {
            proof {
                assert(v@.skip(pos2 as int).take(n as int) =~= v@.subrange(
                    pos2 as int,
                    pos2 as int + n,
                ));
            }
            proof {
                assert(pos2 + n < vn);
            }
            match unescape_range(v, pos2, pos2 + n) {
                Some(val) => {
                    let newpos = pos2 + n + 1;
                    proof {
                        assert(v@.skip(pos2 as int).skip(n as int + 1) =~= v@.skip(
                            newpos as int,
                        ));
                    }
                    Some((val, newpos))
                },
                None => None,
            }
        },
        None => None,
    }
}

fn parse_env_at(v: &Vec<char>, pos: usize) -> (r: Option<(EnvironmentType, usize)>)
    requires
        pos <= v@.len(),
    ensures
        match r {
            Some(p) => {
                &&& parse_env(v@.skip(pos as int)) == Some((p.0, v@.skip(p.1 as int)))
                &&& pos <= p.1 <= v@.len()
            },
            None => parse_env(v@.skip(pos as int)) == None::<(EnvironmentType, Seq<char>)>,
        },
{
    if starts_with_at(v, pos, "environment Fantasy\n") {
        let kc = str_chars("environment Fantasy\n");
        let vn = v.len();
        proof {
            assert(pos + kc@.len() <= vn);
        }
        let newpos = pos + kc.len();
        proof {
            assert(v@.skip(pos as int).skip(env_line(EnvironmentType::Fantasy).len() as int)
                =~= v@.skip(newpos as int));
        }
        Some((EnvironmentType::Fantasy, newpos))
    } else if starts_with_at(v, pos, "environment Technology\n") {
        let kc = str_chars("environment Technology\n");
        let vn = v.len();
        proof {
            assert(pos + kc@.len() <= vn);
        }
        let newpos = pos + kc.len();
        proof {
            assert(v@.skip(pos as int).skip(env_line(EnvironmentType::Technology).len() as int)
                =~= v@.skip(newpos as int));
        }
        Some((EnvironmentType::Technology, newpos))
    } else if starts_with_at(v, pos, "environment RealLife\n") {
        let kc = str_chars("environment RealLife\n");
        let vn = v.len();
        proof {
            assert(pos + kc@.len() <= vn);
        }
        let newpos = pos + kc.len();
        proof {
            assert(v@.skip(pos as int).skip(env_line(EnvironmentType::RealLife).len() as int)
                =~= v@.skip(newpos as int));
        }
        Some((EnvironmentType::RealLife, newpos))
    } else if starts_with_at(v, pos, "environment Hybrid\n") {
        let kc = str_chars("environment Hybrid\n");
        let vn = v.len();
        proof {
            assert(pos + kc@.len() <= vn);
        }
        let newpos = pos + kc.len();
        proof {
            assert(v@.skip(pos as int).skip(env_line(EnvironmentType::Hybrid).len() as int)
                =~= v@.skip(newpos as int));
        }
        Some((EnvironmentType::Hybrid, newpos))
    } else {
        None
    }
}

fn parse_digits_range(v: &Vec<char>, from: usize, to: usize, cap: u64) -> (r: Option<u64>)
    requires
        from <= to <= v@.len(),
        cap <= 0x1_0000_0000,
    ensures
        ({
            let digits = v@.subrange(from as int, to as int);
            match r {
                Some(val) => digits.len() >= 1 && (forall|a: int|
                    0 <= a < digits.len() ==> is_digit_char(#[trigger] digits[a])) && dec_value(
                    digits,
                ) == val && val <= cap,
                None => !(digits.len() >= 1 && (forall|a: int|
                    0 <= a < digits.len() ==> is_digit_char(#[trigger] digits[a])) && dec_value(
                    digits,
                ) <= cap),
            }
        }),
{
    let ghost digits = v@.subrange(from as int, to as int);
    if from == to {
        return None;
    }
    let mut value: u64 = 0;
    let mut i: usize = from;
    while i < to
        invariant
            from <= i <= to <= v@.len(),
            from < to,
            digits == v@.subrange(from as int, to as int),
            value as nat == dec_value(digits.take(i - from)),
            value <= cap <= 0x1_0000_0000,
            forall|a: int| 0 <= a < i - from ==> is_digit_char(#[trigger] digits[a]),
        decreases to - i,
    {
        let c = v[i];
        proof {
            assert(digits[i - from] == c);
        }
        if c < '0' || c > '9' {
            return None;
        }
        let d = crate::text::digit_value_of(c);
        proof {
            assert(digits.take(i - from + 1).drop_last() =~= digits.take(i - from));
            assert(digits.take(i - from + 1).last() == c);
            assert(dec_value(digits.take(i - from + 1)) == dec_value(digits.take(i - from)) * 10
                + digit_value(c));
        }
        let next = value * 10 + d;
        if next > cap {
            proof {
                lemma_dec_value_prefix(digits, i - from + 1);
            }
            return None;
        }
        value = next;
        i = i + 1;
    }
    proof {
        assert(digits.take(to - from) =~= digits);
    }
    Some(value)
}

fn parse_level_at(v: &Vec<char>, pos: usize) -> (r: Option<(u32, usize)>)
    requires
        pos <= v@.len(),
    ensures
        match r {
            Some(p) => {
                &&& parse_level(v@.skip(pos as int)) == Some((p.0, v@.skip(p.1 as int)))
                &&& pos < p.1 <= v@.len()
            },
            None => parse_level(v@.skip(pos as int)) == None::<(u32, Seq<char>)>,
        },
{
    if !starts_with_at(v, pos, "portal_level ") {
        return None;
    }
    let kc = str_chars("portal_level ");
    let vn = v.len();
    proof {
        assert(pos + kc@.len() <= vn);
    }
    let pos2 = pos + kc.len();
    proof {
        assert(v@.skip(pos as int).skip("portal_level "@.len() as int) =~= v@.skip(pos2 as int));
    }
    match find_newline_at(v, pos2) {
        Some(n) => {
            proof {
                assert(v@.skip(pos2 as int).take(n as int) =~= v@.subrange(
                    pos2 as int,
                    pos2 as int + n,
                ));
            }
            proof {
                assert(pos2 + n < vn);
            }
            match parse_digits_range(v, pos2, pos2 + n, 0xffff_ffff) {
                Some(val) => {
                    let newpos = pos2 + n + 1;
                    proof {
                        assert(v@.skip(pos2 as int).skip(n as int + 1) =~= v@.skip(
                            newpos as int,
                        ));
                    }
                    Some((val as u32, newpos))
                },
                None => None,
            }
        },
        None => None,
    }
}

fn parse_portal_at(v: &Vec<char>, pos: usize) -> (r: Option<(Portal, usize)>)
    requires
        pos <= v@.len(),
    ensures
        match r {
            Some(p) => {
                &&& parse_portal(v@.skip(pos as int)) == Some((p.0.deep_view(), v@.skip(
                    p.1 as int,
                )))
                &&& pos < p.1 <= v@.len()
            },
            None => parse_portal(v@.skip(pos as int)) == None::<(PortalView, Seq<char>)>,
        },
{
    match parse_field_at(v, pos, "portal ") {
        Some((pid, p1)) => match parse_field_at(v, p1, "portal_name ") {
            Some((pname, p2)) => match parse_field_at(v, p2, "portal_leads_to ") {
                Some((pleads, p3)) => match parse_level_at(v, p3) {
                    Some((lvl, p4)) => Some(
                        (
                            Portal {
                                id: pid,
                                name: pname,
                                leads_to: pleads,
                                required_level: lvl,
                            },
                            p4,
                        ),
                    ),
                    None => None,
                },
                None => None,
            },
            None => None,
        },
        None => None,
    }
}

fn parse_portals_at(v: &Vec<char>, pos: usize) -> (r: Option<Vec<Portal>>)
    requires
        pos <= v@.len(),
    ensures
        match r {
            Some(ps) => parse_portals(v@.skip(pos as int)) == Some(ps.deep_view()),
            None => parse_portals(v@.skip(pos as int)) == None::<Seq<PortalView>>,
        },
{
    let ghost orig = v@.skip(pos as int);
    let mut acc: Vec<Portal> = Vec::new();
    let mut cur: usize = pos;
    while cur < v.len()
        invariant
            pos <= cur <= v@.len(),
            orig == v@.skip(pos as int),
            match parse_portals(v@.skip(cur as int)) {
                Some(tail) => parse_portals(orig) == Some(acc.deep_view() + tail),
                None => parse_portals(orig) == None::<Seq<PortalView>>,
            },
        decreases v@.len() - cur,
    {
        let ghost s_c = v@.skip(cur as int);
        let ghost acc_pre = acc.deep_view();
        proof {
            assert(s_c.len() > 0);
        }
        match parse_portal_at(v, cur) {
            Some((p, np)) => {
                proof {
                    assert(v@.skip(np as int).len() < s_c.len());
                }
                acc.push(p);
                proof {
                    assert(acc.deep_view() =~= acc_pre.push(p.deep_view()));
                    match parse_portals(v@.skip(np as int)) {
                        Some(t2) => {
                            assert(parse_portals(s_c) == Some(seq![p.deep_view()] + t2));
                            assert(acc_pre + (seq![p.deep_view()] + t2) =~= acc.deep_view() + t2);
                        },
                        None => {
                            assert(parse_portals(s_c) == None::<Seq<PortalView>>);
                        },
                    }
                }
                cur = np;
            },
            None => {
                proof {
                    assert(parse_portals(s_c) == None::<Seq<PortalView>>);
                }
                return None;
            },
        }
    }
    proof {
        assert(v@.skip(cur as int) =~= Seq::<char>::empty());
        assert(parse_portals(Seq::<char>::empty()) == Some(Seq::<PortalView>::empty()));
        assert(acc.deep_view() + Seq::<PortalView>::empty() =~= acc.deep_view());
    }
    Some(acc)
}

/// Parse one region record from its on-disk text: `Some` exactly when the
/// text is a well-formed region record, and then the record whose fields
/// the text spells out.
pub fn parse_region(s: &str) -> (r: Option<DungeonRegion>)
    ensures
        match r {
            Some(reg) => parse_region_chars(s@) == Some(reg.deep_view()),
            None => parse_region_chars(s@) == None::<RegionView>,
        },
{
    proof {
        reveal(parse_region_chars);
    }
    let v = str_chars(s);
    proof {
        assert(v@.skip(0) =~= s@);
    }
    let id_r = parse_field_at(&v, 0, "id ");
    if id_r.is_none() {
        return None;
    }
    let (id, p1) = id_r.unwrap();
    let name_r = parse_field_at(&v, p1, "name ");
    if name_r.is_none() {
        return None;
    }
    let (name, p2) = name_r.unwrap();
    let descr_r = parse_field_at(&v, p2, "description ");
    if descr_r.is_none() {
        return None;
    }
    let (description, p3) = descr_r.unwrap();
    let env_r = parse_env_at(&v, p3);
    if env_r.is_none() {
        return None;
    }
    let (environment, p4) = env_r.unwrap();
    if starts_with_at(&v, p4, "anchor ") {
        let anchor_r = parse_field_at(&v, p4, "anchor ");
        if anchor_r.is_none() {
            return None;
        }
        let (anchor, p5) = anchor_r.unwrap();
        match parse_portals_at(&v, p5) {
            Some(portals) => Some(
                DungeonRegion {
                    id,
                    name,
                    description,
                    environment,
                    portals,
                    anchor_point: Some(anchor),
                },
            ),
            None => None,
        }
    } else {
        match parse_portals_at(&v, p4) {
            Some(portals) => Some(
                DungeonRegion {
                    id,
                    name,
                    description,
                    environment,
                    portals,
                    anchor_point: None,
                },
            ),
            None => None,
        }
    }
}


fn parse_i32_at(v: &Vec<char>, pos: usize, key: &str) -> (r: Option<(i32, usize)>)
    requires
        pos <= v@.len(),
    ensures
        match r {
            Some(p) => {
                &&& parse_i32_field(key@, v@.skip(pos as int)) == Some((p.0, v@.skip(
                    p.1 as int,
                )))
                &&& pos < p.1 <= v@.len()
            },
            None => parse_i32_field(key@, v@.skip(pos as int)) == None::<(i32, Seq<char>)>,
        },
{
    if !starts_with_at(v, pos, key) {
        return None;
    }
    let kc = str_chars(key);
    let vn = v.len();
    proof {
        assert(pos + kc@.len() <= vn);
    }
    let pos2 = pos + kc.len();
    proof {
        assert(v@.skip(pos as int).skip(key@.len() as int) =~= v@.skip(pos2 as int));
    }
    match find_newline_at(v, pos2) {
        Some(n) => {
            let ghost body = v@.skip(pos2 as int).take(n as int);
            proof {
                assert(body =~= v@.subrange(pos2 as int, pos2 as int + n));
                assert(pos2 + n < vn);
            }
            if n == 0 {
                return None;
            }
            let newpos = pos2 + n + 1;
            proof {
                assert(v@.skip(pos2 as int).skip(n as int + 1) =~= v@.skip(newpos as int));
                assert(body[0] == v@[pos2 as int]);
            }
            if v[pos2] == '-' {
                proof {
                    assert(v@.subrange(pos2 as int + 1, pos2 as int + n) =~= body.drop_first());
                }
                match parse_digits_range(v, pos2 + 1, pos2 + n, 0x8000_0000) {
                    Some(val) => {
                        let iv: i32 = if val == 0x8000_0000 {
                            i32::MIN
                        } else {
                            -(val as i32)
                        };
                        Some((iv, newpos))
                    },
                    None => None,
                }
            } else {
                match parse_digits_range(v, pos2, pos2 + n, 0x7fff_ffff) {
                    Some(val) => Some((val as i32, newpos)),
                    None => None,
                }
            }
        },
        None => None,
    }
}

/// Parse one artifact record from its on-disk text: `Some` exactly when
/// the text is a well-formed artifact record, and then the record whose
/// fields the text spells out.
pub fn parse_artifact(s: &str) -> (r: Option<Artifact>)
    ensures
        match r {
            Some(a) => parse_artifact_chars(s@) == Some(a.deep_view()),
            None => parse_artifact_chars(s@) == None::<ArtifactView>,
        },
{
    proof {
        reveal(parse_artifact_chars);
    }
    let v = str_chars(s);
    proof {
        assert(v@.skip(0) =~= s@);
    }
    let id_r = parse_field_at(&v, 0, "id ");
    if id_r.is_none() {
        return None;
    }
    let (id, p1) = id_r.unwrap();
    let name_r = parse_field_at(&v, p1, "name ");
    if name_r.is_none() {
        return None;
    }
    let (name, p2) = name_r.unwrap();
    let descr_r = parse_field_at(&v, p2, "description ");
    if descr_r.is_none() {
        return None;
    }
    let (description, p3) = descr_r.unwrap();
    let power_r = parse_i32_at(&v, p3, "power ");
    if power_r.is_none() {
        return None;
    }
    let (power, p4) = power_r.unwrap();
    if starts_with_at(&v, p4, "affinity ") {
        let aff_r = parse_i32_at(&v, p4, "affinity ");
        if aff_r.is_none() {
            return None;
        }
        let (aff, p5) = aff_r.unwrap();
        match parse_field_at(&v, p5, "rarity ") {
            Some((rarity, p6)) => {
                if p6 == v.len() {
                    proof {
                        assert(v@.skip(p6 as int).len() == 0);
                    }
                    Some(
                        Artifact {
                            id,
                            name,
                            description,
                            power,
                            magic_affinity: Some(aff),
                            rarity,
                        },
                    )
                } else {
                    None
                }
            },
            None => None,
        }
    } else {
        match parse_field_at(&v, p4, "rarity ") {
            Some((rarity, p6)) => {
                if p6 == v.len() {
                    proof {
                        assert(v@.skip(p6 as int).len() == 0);
                    }
                    Some(
                        Artifact {
                            id,
                            name,
                            description,
                            power,
                            magic_affinity: None,
                            rarity,
                        },
                    )
                } else {
                    None
                }
            },
            None => None,
        }
    }
}

/// Parse a whole directory's worth of region files, given as (file name,
/// content) pairs. One malformed file fails the load, naming that file;
/// otherwise every record is returned, in input order.
pub fn parse_regions(files: &Vec<(String, String)>) -> (r: Result<Vec<DungeonRegion>, LoadError>)
    ensures
        match r {
            Ok(out) => {
                &&& out.deep_view().len() == files@.len()
                &&& forall|k: int|
                    0 <= k < files@.len() ==> parse_region_chars(files@[k].1@) == Some(
                        #[trigger] out.deep_view()[k],
                    )
            },
            Err(e) => exists|k: int|
                {
                    &&& 0 <= k < files@.len()
                    &&& parse_region_chars(files@[k].1@) == None::<RegionView>
                    &&& (forall|a: int|
                        0 <= a < k ==> parse_region_chars(#[trigger] files@[a].1@)
                            is Some)
                    &&& e matches LoadError::Malformed(f) && f@ == files@[k].0@
                },
        },
{
    let mut out: Vec<DungeonRegion> = Vec::new();
    let n = files.len();
    let mut i: usize = 0;
    while i < n
        invariant
            i <= n,
            n == files@.len(),
            out.deep_view().len() == i,
            forall|k: int|
                0 <= k < i ==> parse_region_chars(files@[k].1@) == Some(
                    #[trigger] out.deep_view()[k],
                ),
        decreases n - i,
    {
        match parse_region(files[i].1.as_str()) {
            Some(reg) => {
                let ghost pre = out.deep_view();
                out.push(reg);
                proof {
                    assert(out.deep_view() =~= pre.push(reg.deep_view()));
                }
            },
            None => {
                let name = files[i].0.clone();
                proof {
                    assert(0 <= i < files@.len() && parse_region_chars(files@[i as int].1@)
                        == None::<RegionView> && name@ == files@[i as int].0@);
                    assert forall|a: int|
                        0 <= a < i implies parse_region_chars(#[trigger] files@[a].1@)
                        is Some by {
                        assert(parse_region_chars(files@[a].1@) == Some(out.deep_view()[a]));
                    }
                }
                return Err(LoadError::Malformed(name));
            },
        }
        i = i + 1;
    }
    Ok(out)
}

/// Parse a whole directory's worth of artifact files, given as (file
/// name, content) pairs; as `parse_regions`, per-file failure fails the
/// load and names the file.
pub fn parse_artifacts(files: &Vec<(String, String)>) -> (r: Result<Vec<Artifact>, LoadError>)
    ensures
        match r {
            Ok(out) => {
                &&& out.deep_view().len() == files@.len()
                &&& forall|k: int|
                    0 <= k < files@.len() ==> parse_artifact_chars(files@[k].1@) == Some(
                        #[trigger] out.deep_view()[k],
                    )
            },
            Err(e) => exists|k: int|
                {
                    &&& 0 <= k < files@.len()
                    &&& parse_artifact_chars(files@[k].1@) == None::<ArtifactView>
                    &&& (forall|a: int|
                        0 <= a < k ==> parse_artifact_chars(#[trigger] files@[a].1@)
                            is Some)
                    &&& e matches LoadError::Malformed(f) && f@ == files@[k].0@
                },
        },
{
    let mut out: Vec<Artifact> = Vec::new();
    let n = files.len();
    let mut i: usize = 0;
    while i < n
        invariant
            i <= n,
            n == files@.len(),
            out.deep_view().len() == i,
            forall|k: int|
                0 <= k < i ==> parse_artifact_chars(files@[k].1@) == Some(
                    #[trigger] out.deep_view()[k],
                ),
        decreases n - i,
    {
        match parse_artifact(files[i].1.as_str()) {
            Some(a) => {
                let ghost pre = out.deep_view();
                out.push(a);
                proof {
                    assert(out.deep_view() =~= pre.push(a.deep_view()));
                }
            },
            None => {
                let name = files[i].0.clone();
                proof {
                    assert(0 <= i < files@.len() && parse_artifact_chars(files@[i as int].1@)
                        == None::<ArtifactView> && name@ == files@[i as int].0@);
                    assert forall|a: int|
                        0 <= a < i implies parse_artifact_chars(#[trigger] files@[a].1@)
                        is Some by {
                        assert(parse_artifact_chars(files@[a].1@) == Some(out.deep_view()[a]));
                    }
                }
                return Err(LoadError::Malformed(name));
            },
        }
        i = i + 1;
    }
    Ok(out)
}

} // verus!
