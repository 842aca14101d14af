//! Text handling for the host operating system's administrative tooling:
//! colon-separated administrative output, user attributes, and the zone
//! listing.

use vstd::prelude::*;

use crate::spec_lookup;
use crate::text::{
    chars_of, parse_u64, spec_lines, spec_split, spec_trim, split_char, split_lines, str_eq,
    string_from_chars, trim_chars, utf8_to_string, all_digits, digits_val,
};
use crate::zone::ZoneError;
use crate::Bindings;

verus! {

/// Errors of administrative-output parsing.
#[derive(Debug, Clone, Copy, PartialEq, Eq, Structural)]
pub enum OutputError {
    /// The command's output is not valid UTF-8.
    InvalidUtf8,
    /// A zone listing line has fewer fields than the listing format.
    ShortZoneLine,
    /// A zone listing line carries an identifier that is not a number.
    BadZoneId,
    /// No zone of the requested name exists.
    NoSuchZone,
}

/// One user's extended attributes.
#[derive(Debug)]
pub struct UserAttr {
    pub name: String,
    pub attr: Bindings,
}

/// The profile list a `profiles` attribute value denotes: comma-separated,
/// each entry trimmed of surrounding whitespace.
pub open spec fn profiles_spec(attr: Seq<(Seq<char>, Seq<char>)>) -> Seq<Seq<char>> {
    match spec_lookup(attr, "profiles"@) {
        Some(p) => spec_split(p, ',').map_values(|t: Seq<char>| spec_trim(t)),
        None => Seq::empty(),
    }
}

impl UserAttr {
    /// The profiles granted to this user, in order.
    pub fn profiles(&self) -> (r: Vec<String>)
        ensures
            r.deep_view() == profiles_spec(self.attr@),
    {
        match self.attr.get("profiles") {
            None => {
                let r: Vec<String> = Vec::new();
                proof {
                    assert(r.deep_view() =~= profiles_spec(self.attr@));
                }
                r
            },
            Some(p) => {
                let ghost target = profiles_spec(self.attr@);
                let cs = chars_of(p.as_str());
                let parts = split_char(&cs, ',');
                let n: usize = parts.len();
                let mut out: Vec<String> = Vec::new();
                let mut i: usize = 0;
                proof {
                    assert(out.deep_view() =~= target.take(0));
                }
                while i < n
                    invariant
                        i <= n,
                        n == parts@.len(),
                        parts.deep_view() == spec_split(p@, ','),
                        target == spec_split(p@, ',').map_values(|t: Seq<char>| spec_trim(t)),
                        out.deep_view() == target.take(i as int),
                    decreases n - i,
                {
                    let t = trim_chars(&parts[i]);
                    let ghost out0 = out.deep_view();
                    out.push(string_from_chars(&t));
                    proof {
                        assert(parts.deep_view()[i as int] == parts@[i as int].deep_view());
                        assert(parts@[i as int].deep_view() =~= parts@[i as int]@);
                        assert(target[i as int] == spec_trim(spec_split(p@, ',')[i as int]));
                        assert(out.deep_view() =~~= out0.push(target[i as int]));
                        assert(out.deep_view() =~= target.take(i as int + 1));
                    }
                    i = i + 1;
                }
                proof {
                    assert(target.take(n as int) =~= target);
                }
                out
            },
        }
    }
}

/// Accumulator of colon-separated terms, with backslash escapes.
pub struct Terms {
    terms: Vec<String>,
    buf: Option<Vec<char>>,
}

impl Terms {
    /// A fresh accumulator with one empty term begun.
    pub fn new() -> (r: Terms)
        ensures
            r.terms_view() == Seq::<Seq<char>>::empty(),
            r.buf_view() == Some(Seq::<char>::empty()),
    {
        let r = Terms { terms: Vec::new(), buf: Some(Vec::new()) };
        proof {
            assert(r.terms_view() =~= Seq::<Seq<char>>::empty());
            assert(r.buf@->0@ =~= Seq::<char>::empty());
        }
        r
    }

    /// The committed terms.
    pub closed spec fn terms_view(&self) -> Seq<Seq<char>> {
        self.terms.deep_view()
    }

    /// The term being accumulated, if any.
    pub closed spec fn buf_view(&self) -> Option<Seq<char>> {
        match self.buf {
            Some(b) => Some(b@),
            None => None,
        }
    }

    /// Add one character to the term being accumulated, beginning one if
    /// none is.
    pub fn append(&mut self, c: char)
        ensures
            final(self).terms_view() == old(self).terms_view(),
            final(self).buf_view() == match old(self).buf_view() {
                Some(b) => Some(b.push(c)),
                None => Some(seq![c]),
            },
    {
        if self.buf.is_none() {
            self.buf = Some(Vec::new());
            proof {
                assert(self.buf@->0@ =~= Seq::<char>::empty());
                assert(Seq::<char>::empty().push(c) =~= seq![c]);
            }
        }
        match &mut self.buf {
            Some(b) => {
                b.push(c);
            },
            None => {
            },
        }
    }

    /// Commit the term being accumulated and begin an empty one.
    pub fn commit(&mut self)
        ensures
            final(self).terms_view() == match old(self).buf_view() {
                Some(b) => old(self).terms_view().push(b),
                None => old(self).terms_view(),
            },
            final(self).buf_view() == Some(Seq::<char>::empty()),
    {
        let ghost t0 = self.terms_view();
        match &self.buf {
            Some(b) => {
                let s = string_from_chars(b);
                let ghost bv = b@;
                self.terms.push(s);
                proof {
                    assert(self.terms.deep_view() =~~= t0.push(bv));
                }
            },
            None => {
            },
        }
        self.buf = Some(Vec::new());
        proof {
            assert(self.buf@->0@ =~= Seq::<char>::empty());
        }
    }

    /// The committed terms, as strings.
    pub fn result(&self) -> (r: Vec<String>)
        ensures
            r.deep_view() == self.terms_view(),
    {
        let n: usize = self.terms.len();
        let mut out: Vec<String> = Vec::new();
        let mut i: usize = 0;
        proof {
            assert(out.deep_view() =~= self.terms.deep_view().take(0));
        }
        while i < n
            invariant
                i <= n,
                n == self.terms@.len(),
                out.deep_view() == self.terms.deep_view().take(i as int),
            decreases n - i,
        {
            let ghost out0 = out.deep_view();
            out.push(self.terms[i].clone());
            proof {
                assert(out.deep_view() =~~= out0.push(self.terms.deep_view()[i as int]));
                assert(out.deep_view() =~= self.terms.deep_view().take(i as int + 1));
            }
            i = i + 1;
        }
        proof {
            assert(self.terms.deep_view().take(n as int) =~= self.terms.deep_view());
        }
        out
    }
}

/// Accumulator configuration of the colon-separated line scanner.
#[verifier::ext_equal]
pub struct NetSt {
    pub esc: bool,
    pub cur: Seq<char>,
    pub acc: Seq<Seq<char>>,
}

/// One character of progress through a colon-separated line: a backslash
/// escapes the next character, an unescaped colon commits the current term.
pub open spec fn net_step(st: NetSt, c: char) -> NetSt {
    if st.esc {
        NetSt { esc: false, cur: st.cur.push(c), acc: st.acc }
    } else if c == '\\' {
        NetSt { esc: true, ..st }
    } else if c == ':' {
        NetSt { esc: false, cur: Seq::empty(), acc: st.acc.push(st.cur) }
    } else {
        NetSt { cur: st.cur.push(c), ..st }
    }
}

/// The scanner configuration after a whole line.
pub open spec fn net_run(cs: Seq<char>) -> NetSt
    decreases cs.len(),
{
    if cs.len() == 0 {
        NetSt { esc: false, cur: Seq::empty(), acc: Seq::empty() }
    } else {
        net_step(net_run(cs.drop_last()), cs.last())
    }
}

/// The terms of one colon-separated line, including the final one.
pub open spec fn net_line(cs: Seq<char>) -> Seq<Seq<char>> {
    let st = net_run(cs);
    st.acc.push(st.cur)
}

/// The terms of every line of a command's decoded output.
pub open spec fn net_adm_model(text: Seq<char>) -> Seq<Seq<Seq<char>>> {
    spec_lines(text).map_values(|l: Seq<char>| net_line(l))
}

/// Parse the colon-separated, backslash-escaped output of the host's
/// administrative tools into lines of terms.
pub fn parse_net_adm(stdout: Vec<u8>) -> (r: Result<Vec<Vec<String>>, OutputError>)
    ensures
        match r {
            Ok(v) => vstd::utf8::valid_utf8(stdout@) && v.deep_view() == net_adm_model(
                vstd::utf8::decode_utf8(stdout@),
            ),
            Err(e) => !vstd::utf8::valid_utf8(stdout@) && e == OutputError::InvalidUtf8,
        },
{
    let text = match utf8_to_string(stdout) {
        Some(t) => t,
        None => {
            return Err(OutputError::InvalidUtf8);
        },
    };
    let cs = chars_of(text.as_str());
    let lines = split_lines(&cs);
    let ghost lm = spec_lines(text@);
    let ghost target = net_adm_model(text@);
    let n: usize = lines.len();
    let mut out: Vec<Vec<String>> = Vec::new();
    let mut i: usize = 0;
    proof {
        assert(out.deep_view() =~= target.take(0));
    }
    while i < n
        invariant
            i <= n,
            n == lines@.len(),
            lines.deep_view() == lm,
            target == lm.map_values(|l: Seq<char>| net_line(l)),
            out.deep_view() == target.take(i as int),
        decreases n - i,
    {
        let line = &lines[i];
        proof {
            assert(lines.deep_view()[i as int] == lines@[i as int].deep_view());
            assert(lines@[i as int].deep_view() =~= lines@[i as int]@);
            assert(target[i as int] == net_line(lm[i as int]));
        }
        let m: usize = line.len();
        let mut terms = Terms::new();
        let mut escape = false;
        let mut j: usize = 0;
        proof {
            assert(line@.take(0) =~= Seq::<char>::empty());
            assert(net_run(line@.take(0)) == NetSt {
                esc: false,
                cur: Seq::empty(),
                acc: Seq::empty(),
            });
        }
        while j < m
            invariant
                j <= m,
                m == line@.len(),
                terms.buf_view() is Some,
                net_run(line@.take(j as int)) == (NetSt {
                    esc: escape,
                    cur: terms.buf_view()->0,
                    acc: terms.terms_view(),
                }),
            decreases m - j,
        {
            let c = line[j];
            let ghost prev = net_run(line@.take(j as int));
            proof {
                assert(line@.take(j as int + 1).drop_last() =~= line@.take(j as int));
                assert(line@.take(j as int + 1).last() == line@[j as int]);
            }
            if escape {
                terms.append(c);
                escape = false;
            } else if c == '\\' {
                escape = true;
            } else if c == ':' {
                terms.commit();
            } else {
                terms.append(c);
            }
            proof {
                assert(net_step(prev, c) =~= NetSt {
                    esc: escape,
                    cur: terms.buf_view()->0,
                    acc: terms.terms_view(),
                });
            }
            j = j + 1;
        }
        proof {
            assert(line@.take(m as int) =~= line@);
        }
        terms.commit();
        let row = terms.result();
        let ghost out0 = out.deep_view();
        out.push(row);
        proof {
            assert(row.deep_view() == net_line(lm[i as int]));
            assert(out.deep_view() =~~= out0.push(net_line(lm[i as int])));
            assert(out.deep_view() =~= target.take(i as int + 1));
        }
        i = i + 1;
    }
    proof {
        assert(target.take(n as int) =~= target);
    }
    Ok(out)
}

/// One zone of the host's zone listing.
#[derive(Debug, Clone)]
pub struct Zone {
    pub id: Option<u64>,
    pub name: String,
    pub state: String,
    pub path: String,
    pub uuid: Option<String>,
    pub brand: String,
    pub ip_type: String,
}

/// Mathematical content of a zone listing entry.
#[verifier::ext_equal]
pub struct ZoneModel {
    pub id: Option<nat>,
    pub name: Seq<char>,
    pub state: Seq<char>,
    pub path: Seq<char>,
    pub uuid: Option<Seq<char>>,
    pub brand: Seq<char>,
    pub ip_type: Seq<char>,
}

impl View for Zone {
    type V = ZoneModel;

    open spec fn view(&self) -> ZoneModel {
        ZoneModel {
            id: match self.id {
                Some(v) => Some(v as nat),
                None => None,
            },
            name: self.name@,
            state: self.state@,
            path: self.path@,
            uuid: match self.uuid {
                Some(ref u) => Some(u@),
                None => None,
            },
            brand: self.brand@,
            ip_type: self.ip_type@,
        }
    }
}

/// The zone one listing row denotes, if the row is well-formed: at least
/// seven fields, a numeric or `-` identifier, an empty fifth field for a
/// missing UUID.
pub open spec fn zone_of_fields(f: Seq<Seq<char>>) -> Result<ZoneModel, OutputError> {
    if f.len() < 7 {
        Err(OutputError::ShortZoneLine)
    } else if f[0] != "-"@ && !(f[0].len() > 0 && all_digits(f[0]) && digits_val(f[0])
        <= u64::MAX) {
        Err(OutputError::BadZoneId)
    } else {
        Ok(
            ZoneModel {
                id: if f[0] == "-"@ {
                    None
                } else {
                    Some(digits_val(f[0]))
                },
                name: f[1],
                state: f[2],
                path: f[3],
                uuid: if f[4].len() == 0 {
                    None
                } else {
                    Some(f[4])
                },
                brand: f[5],
                ip_type: f[6],
            },
        )
    }
}

/// Interpret one row of the zone listing.
pub fn zone_from_fields(fields: &Vec<String>) -> (r: Result<Zone, OutputError>)
    ensures
        match r {
            Ok(z) => zone_of_fields(fields.deep_view()) == Ok::<ZoneModel, OutputError>(z@),
            Err(e) => zone_of_fields(fields.deep_view()) == Err::<ZoneModel, OutputError>(e),
        },
{
    proof {
        assert(forall|j: int|
            0 <= j < fields@.len() ==> (#[trigger] fields.deep_view()[j]) == fields@[j]@);
    }
    if fields.len() < 7 {
        return Err(OutputError::ShortZoneLine);
    }
    let id: Option<u64> = if str_eq(fields[0].as_str(), "-") {
        None
    } else {
        match parse_u64(fields[0].as_str()) {
            Some(v) => Some(v),
            None => {
                return Err(OutputError::BadZoneId);
            },
        }
    };
    let uuid: Option<String> = if fields[4].as_str().unicode_len() == 0 {
        proof {
            assert(fields@[4]@.len() == 0);
        }
        None
    } else {
        Some(fields[4].clone())
    };
    Ok(
        Zone {
            id,
            name: fields[1].clone(),
            state: fields[2].clone(),
            path: fields[3].clone(),
            uuid,
            brand: fields[5].clone(),
            ip_type: fields[6].clone(),
        },
    )
}

/// Interpret a whole zone listing, as decoded by `parse_net_adm`.
pub open spec fn zones_of_rows(rows: Seq<Seq<Seq<char>>>) -> Result<Seq<ZoneModel>, OutputError>
    decreases rows.len(),
{
    if rows.len() == 0 {
        Ok(Seq::empty())
    } else {
        match zones_of_rows(rows.drop_last()) {
            Err(e) => Err(e),
            Ok(acc) => match zone_of_fields(rows.last()) {
                Err(e) => Err(e),
                Ok(z) => Ok(acc.push(z)),
            },
        }
    }
}

proof fn lemma_zones_of_rows_err(rows: Seq<Seq<Seq<char>>>, i: int)
    requires
        0 <= i <= rows.len(),
        zones_of_rows(rows.take(i)) is Err,
    ensures
        zones_of_rows(rows) == zones_of_rows(rows.take(i)),
    decreases rows.len() - i,
{
    if i == rows.len() {
        assert(rows.take(i) =~= rows);
    } else {
        assert(rows.take(i + 1).drop_last() =~= rows.take(i));
        lemma_zones_of_rows_err(rows, i + 1);
    }
}

/// The zones a listing's rows denote.
pub fn zones_from_rows(rows: &Vec<Vec<String>>) -> (r: Result<Vec<Zone>, OutputError>)
    ensures
        match r {
            Ok(v) => zones_of_rows(rows.deep_view()) == Ok::<Seq<ZoneModel>, OutputError>(
                v@.map_values(|z: Zone| z@),
            ),
            Err(e) => zones_of_rows(rows.deep_view()) == Err::<Seq<ZoneModel>, OutputError>(e),
        },
{
    let ghost rm = rows.deep_view();
    let n: usize = rows.len();
    let mut out: Vec<Zone> = Vec::new();
    let mut i: usize = 0;
    proof {
        assert(rm.take(0) =~= Seq::<Seq<Seq<char>>>::empty());
        assert(out@.map_values(|z: Zone| z@) =~= Seq::<ZoneModel>::empty());
    }
    while i < n
        invariant
            i <= n,
            n == rows@.len(),
            rm == rows.deep_view(),
            zones_of_rows(rm.take(i as int)) == Ok::<Seq<ZoneModel>, OutputError>(
                out@.map_values(|z: Zone| z@),
            ),
        decreases n - i,
    {
        proof {
            assert(rm.take(i as int + 1).drop_last() =~= rm.take(i as int));
            assert(rm.take(i as int + 1).last() == rm[i as int]);
            assert(rm[i as int] == rows@[i as int].deep_view());
        }
        match zone_from_fields(&rows[i]) {
            Ok(z) => {
                let ghost out0 = out@.map_values(|z: Zone| z@);
                out.push(z);
                proof {
                    assert(out@.map_values(|z: Zone| z@) =~= out0.push(out@.last()@));
                }
            },
            Err(e) => {
                proof {
                    assert(zones_of_rows(rm.take(i as int + 1)) is Err);
                    lemma_zones_of_rows_err(rm, i as int + 1);
                }
                return Err(e);
            },
        }
        i = i + 1;
    }
    proof {
        assert(rm.take(n as int) =~= rm);
    }
    Ok(out)
}

/// Convenience queries over a zone listing.
pub trait ZonesExt {
    /// Whether a zone of this name appears in the listing.
    fn zone_exists(&self, n: &str) -> (r: bool);

    /// The first zone of this name.
    fn by_name(&self, n: &str) -> (r: Result<Zone, OutputError>);
}

impl ZonesExt for Vec<Zone> {
    /// Whether a zone of this name appears in the listing.
    fn zone_exists(&self, n: &str) -> (r: bool)
        ensures
            r == exists|j: int| 0 <= j < self@.len() && (#[trigger] self@[j])@.name == n@,
    {
        let k: usize = self.len();
        let mut i: usize = 0;
        while i < k
            invariant
                i <= k,
                k == self@.len(),
                forall|j: int| 0 <= j < i ==> (#[trigger] self@[j])@.name != n@,
            decreases k - i,
        {
            if str_eq(self[i].name.as_str(), n) {
                proof {
                    assert(self@[i as int]@.name == n@);
                }
                return true;
            }
            i = i + 1;
        }
        false
    }

    /// The first zone of this name.
    fn by_name(&self, n: &str) -> (r: Result<Zone, OutputError>)
        ensures
            match r {
                Ok(z) => exists|j: int|
                    0 <= j < self@.len() && (#[trigger] self@[j])@.name == n@ && z@ == self@[j]@
                        && forall|k: int| 0 <= k < j ==> (#[trigger] self@[k])@.name != n@,
                Err(e) => e == OutputError::NoSuchZone && forall|j: int|
                    0 <= j < self@.len() ==> (#[trigger] self@[j])@.name != n@,
            },
    {
        let k: usize = self.len();
        let mut i: usize = 0;
        while i < k
            invariant
                i <= k,
                k == self@.len(),
                forall|j: int| 0 <= j < i ==> (#[trigger] self@[j])@.name != n@,
            decreases k - i,
        {
            if str_eq(self[i].name.as_str(), n) {
                let z = &self[i];
                let c = Zone {
                    id: z.id,
                    name: z.name.clone(),
                    state: z.state.clone(),
                    path: z.path.clone(),
                    uuid: match &z.uuid {
                        Some(u) => Some(u.clone()),
                        None => None,
                    },
                    brand: z.brand.clone(),
                    ip_type: z.ip_type.clone(),
                };
                proof {
                    assert(c@ =~= self@[i as int]@);
                }
                return Ok(c);
            }
            i = i + 1;
        }
        Err(OutputError::NoSuchZone)
    }
}

/// Whitespace-separated tokens of one status line.
pub open spec fn ws_tokens(s: Seq<char>) -> Seq<Seq<char>> {
    spec_split(s, ' ').filter(|t: Seq<char>| t.len() > 0)
}

/// What one poll of the milestone service's status showed.
#[derive(Debug, Clone, Copy, PartialEq, Eq, Structural)]
pub enum ServiceCheck {
    /// The service is online and not transitioning.
    Ready,
    /// Keep polling.
    NotReady,
}

/// Decide one poll of the sandbox's milestone service from the status
/// query's output: exactly one line whose first two columns are `ON` and
/// `-` means the service is up; no line means keep polling; anything else
/// is unexpected.
pub fn milestone_status(stdout: &str) -> (r: Result<ServiceCheck, ZoneError>)
    ensures
        ({
            let ls = spec_lines(stdout@);
            match r {
                Ok(ServiceCheck::Ready) => ls.len() == 1 && ws_tokens(ls[0]).len() >= 2
                    && ws_tokens(ls[0])[0] == "ON"@ && ws_tokens(ls[0])[1] == "-"@,
                Ok(ServiceCheck::NotReady) => ls.len() == 0 || (ls.len() == 1 && !(ws_tokens(
                    ls[0],
                ).len() >= 2 && ws_tokens(ls[0])[0] == "ON"@ && ws_tokens(ls[0])[1] == "-"@)),
                Err(e) => e == ZoneError::UnexpectedServiceOutput && ls.len() > 1,
            }
        }),
{
    let cs = chars_of(stdout);
    let lines = split_lines(&cs);
    if lines.len() == 0 {
        return Ok(ServiceCheck::NotReady);
    }
    if lines.len() > 1 {
        return Err(ZoneError::UnexpectedServiceOutput);
    }
    proof {
        assert(lines.deep_view()[0] == lines@[0].deep_view());
        assert(lines@[0].deep_view() =~= lines@[0]@);
    }
    let parts = split_char(&lines[0], ' ');
    let ghost toks = ws_tokens(spec_lines(stdout@)[0]);
    let mut tokens: Vec<Vec<char>> = Vec::new();
    let n: usize = parts.len();
    let mut i: usize = 0;
    proof {
        let pm = parts.deep_view();
        reveal(Seq::filter);
        assert(pm.take(0) =~= Seq::<Seq<char>>::empty());
        assert(tokens.deep_view() =~= pm.take(0).filter(|t: Seq<char>| t.len() > 0));
    }
    while i < n
        invariant
            i <= n,
            n == parts@.len(),
            parts.deep_view() == spec_split(spec_lines(stdout@)[0], ' '),
            tokens.deep_view() == parts.deep_view().take(i as int).filter(
                |t: Seq<char>| t.len() > 0,
            ),
        decreases n - i,
    {
        let ghost pm = parts.deep_view();
        proof {
            assert(pm.take(i as int + 1).drop_last() =~= pm.take(i as int));
            assert(pm.take(i as int + 1).last() == pm[i as int]);
            assert(pm[i as int] == parts@[i as int].deep_view());
            assert(parts@[i as int].deep_view() =~= parts@[i as int]@);
            reveal(Seq::filter);
        }
        if parts[i].len() > 0 {
            let ghost tk0 = tokens.deep_view();
            let mut copy: Vec<char> = Vec::new();
            let m: usize = parts[i].len();
            let mut j: usize = 0;
            while j < m
                invariant
                    j <= m,
                    m == parts@[i as int]@.len(),
                    i < n,
                    n == parts@.len(),
                    copy@ == parts@[i as int]@.take(j as int),
                decreases m - j,
            {
                copy.push(parts[i][j]);
                proof {
                    assert(copy@ =~= parts@[i as int]@.take(j as int + 1));
                }
                j = j + 1;
            }
            proof {
                assert(parts@[i as int]@.take(m as int) =~= parts@[i as int]@);
            }
            tokens.push(copy);
            proof {
                reveal(Seq::filter);
                assert(tokens.deep_view() =~~= tk0.push(pm[i as int]));
                assert(pm.take(i as int + 1).filter(|t: Seq<char>| t.len() > 0) =~= tk0.push(
                    pm[i as int],
                ));
            }
        } else {
            proof {
                reveal(Seq::filter);
                assert(pm.take(i as int + 1).filter(|t: Seq<char>| t.len() > 0)
                    =~= tokens.deep_view());
            }
        }
        i = i + 1;
    }
    proof {
        assert(parts.deep_view().take(n as int) =~= parts.deep_view());
    }
    if tokens.len() >= 2 {
        let a = string_from_chars(&tokens[0]);
        let b = string_from_chars(&tokens[1]);
        proof {
            assert(tokens.deep_view()[0] == tokens@[0].deep_view());
            assert(tokens@[0].deep_view() =~= tokens@[0]@);
            assert(tokens.deep_view()[1] == tokens@[1].deep_view());
            assert(tokens@[1].deep_view() =~= tokens@[1]@);
        }
        if str_eq(a.as_str(), "ON") && str_eq(b.as_str(), "-") {
            return Ok(ServiceCheck::Ready);
        }
        return Ok(ServiceCheck::NotReady);
    }
    Ok(ServiceCheck::NotReady)
}

} // verus!
