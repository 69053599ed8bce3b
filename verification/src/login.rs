//! The local login server: the values carried by the login redirect, and
//! the answer to each request that reaches the server.

use vstd::prelude::*;
use crate::text::{
    append_str, chars_of, has_substring, push_char, replace_all, replace_str, starts_with,
    starts_with_str, str_eq, contains_str,
};

verus! {

broadcast use vstd::string::group_string_axioms;

/// `s` cut at every `c`, as `str::split` cuts it: one more piece than there
/// are `c`s, empty pieces included.
pub open spec fn split_on(s: Seq<char>, c: char) -> Seq<Seq<char>>
    decreases s.len(),
{
    if s.len() == 0 {
        seq![Seq::empty()]
    } else {
        let prev = split_on(s.drop_last(), c);
        if s.last() == c {
            prev.push(Seq::empty())
        } else {
            prev.update(prev.len() - 1, prev.last().push(s.last()))
        }
    }
}

/// There is always at least one piece.
pub proof fn lemma_split_nonempty(s: Seq<char>, c: char)
    ensures
        split_on(s, c).len() >= 1,
    decreases s.len(),
{
    if s.len() > 0 {
        lemma_split_nonempty(s.drop_last(), c);
    }
}

/// The pieces joined back together with `c` between each two.
pub open spec fn join_with(parts: Seq<Seq<char>>, c: char) -> Seq<char>
    decreases parts.len(),
{
    if parts.len() == 0 {
        Seq::empty()
    } else if parts.len() == 1 {
        parts[0]
    } else {
        join_with(parts.drop_last(), c) + seq![c] + parts.last()
    }
}

/// Cutting at every `c` and joining the pieces with `c` gives back the text,
/// and no piece holds a `c`.
pub proof fn lemma_split_join(s: Seq<char>, c: char)
    ensures
        join_with(split_on(s, c), c) == s,
        forall|k: int, m: int|
            0 <= k < split_on(s, c).len() && 0 <= m < split_on(s, c)[k].len() ==> #[trigger] split_on(
                s,
                c,
            )[k][m] != c,
    decreases s.len(),
{
    if s.len() > 0 {
        let t = s.drop_last();
        lemma_split_join(t, c);
        lemma_split_nonempty(t, c);
        let prev = split_on(t, c);
        let parts = split_on(s, c);
        if s.last() == c {
            assert(parts.drop_last() =~= prev);
            assert(join_with(parts, c) =~= s);
        } else {
            let n = prev.len();
            if n == 1 {
                assert(join_with(prev, c) == prev[0]);
                assert(join_with(parts, c) =~= s);
            } else {
                assert(parts.drop_last() =~= prev.drop_last());
                assert(join_with(prev, c) == join_with(prev.drop_last(), c) + seq![c] + prev.last());
                assert(parts.last() == prev.last().push(s.last()));
                assert(join_with(parts, c) == join_with(parts.drop_last(), c) + seq![c] + parts.last());
                assert(s =~= t.push(s.last()));
                assert(join_with(parts, c) =~= s);
            }
            assert forall|k: int, m: int| 0 <= k < parts.len() && 0 <= m < parts[k].len() implies #[trigger] parts[k][m]
                != c by {
                if k == n - 1 && m == prev.last().len() {
                    assert(parts[k][m] == s.last());
                } else if k == n - 1 {
                    assert(parts[k][m] == prev[k][m]);
                } else {
                    assert(parts[k] == prev[k]);
                }
            }
        }
    }
}

/// Cuts `s` at every `c`.
pub fn split_str(s: &str, c: char) -> (parts: Vec<String>)
    ensures
        parts@.map_values(|p: String| p@) == split_on(s@, c),
{
    let v = chars_of(s);
    let mut done: Vec<String> = Vec::new();
    let mut cur = String::new();
    let mut i: usize = 0;
    while i < v.len()
        invariant
            v@ == s@,
            i <= v@.len(),
            done@.map_values(|p: String| p@).push(cur@) == split_on(v@.take(i as int), c),
        decreases v@.len() - i,
    {
        let ghost before = done@.map_values(|p: String| p@);
        proof {
            assert(v@.take(i + 1).drop_last() =~= v@.take(i as int));
            lemma_split_nonempty(v@.take(i as int), c);
        }
        if v[i] == c {
            let finished = cur;
            done.push(finished);
            cur = String::new();
            proof {
                assert(done@.map_values(|p: String| p@) =~= before.push(finished@));
                assert(done@.map_values(|p: String| p@).push(cur@) =~= split_on(v@.take(i + 1), c));
            }
        } else {
            let ghost old_cur = cur@;
            push_char(&mut cur, v[i]);
            proof {
                assert(done@.map_values(|p: String| p@).push(cur@) =~= before.push(old_cur).update(
                    before.len() as int,
                    old_cur.push(v@[i as int]),
                ));
            }
        }
        i = i + 1;
    }
    done.push(cur);
    proof {
        assert(v@.take(v@.len() as int) =~= v@);
    }
    done
}

/// The `name=value` pieces of the query of a redirect address: the text
/// between its first and second `?`, cut at every `&`.
pub open spec fn query_pairs(url: Seq<char>) -> Seq<Seq<char>> {
    let a = split_on(url, '?');
    if a.len() >= 2 {
        split_on(a[1], '&')
    } else {
        Seq::empty()
    }
}

/// Every piece of the query holds a `=`.
pub open spec fn pairs_ok(pairs: Seq<Seq<char>>) -> bool {
    forall|k: int| 0 <= k < pairs.len() ==> #[trigger] split_on(pairs[k], '=').len() >= 2
}

/// The value of the last piece named `key` (the text between its first and
/// second `=`), or empty when no piece has that name.
pub open spec fn param_value(pairs: Seq<Seq<char>>, key: Seq<char>) -> Seq<char>
    decreases pairs.len(),
{
    if pairs.len() == 0 {
        Seq::empty()
    } else {
        let d = split_on(pairs.last(), '=');
        if d[0] == key {
            d[1]
        } else {
            param_value(pairs.drop_last(), key)
        }
    }
}

/// The values that a login redirect carries.
pub struct LoginInfo {
    pub token: String,
    pub session_id: String,
    pub member_key: String,
}

/// Whether `parse_login_redirect` can read a redirect address.
pub fn login_redirect_ok(url: &str) -> (ok: bool)
    ensures
        ok == pairs_ok(query_pairs(url@)),
{
    let a = split_str(url, '?');
    if a.len() < 2 {
        return true;
    }
    let pairs = split_str(a[1].as_str(), '&');
    let ghost pv = pairs@.map_values(|p: String| p@);
    let mut k: usize = 0;
    while k < pairs.len()
        invariant
            pv == pairs@.map_values(|p: String| p@),
            pv == query_pairs(url@),
            k <= pairs@.len(),
            forall|m: int| 0 <= m < k ==> #[trigger] split_on(pv[m], '=').len() >= 2,
        decreases pairs@.len() - k,
    {
        let d = split_str(pairs[k].as_str(), '=');
        if d.len() < 2 {
            proof {
                assert(split_on(pv[k as int], '=').len() < 2);
            }
            return false;
        }
        k = k + 1;
    }
    true
}

/// Reads the token, session id and member key from the login redirect
/// address; a value missing from the query is empty, and a value given
/// twice counts the last time.
pub fn parse_login_redirect(url: &str) -> (info: LoginInfo)
    requires
        pairs_ok(query_pairs(url@)),
    ensures
        info.token@ == param_value(query_pairs(url@), "token"@),
        info.session_id@ == param_value(query_pairs(url@), "sessionId"@),
        info.member_key@ == param_value(query_pairs(url@), "memberKey"@),
{
    let mut token = String::new();
    let mut session_id = String::new();
    let mut member_key = String::new();
    let a = split_str(url, '?');
    if a.len() < 2 {
        return LoginInfo { token, session_id, member_key };
    }
    let pairs = split_str(a[1].as_str(), '&');
    let ghost pv = pairs@.map_values(|p: String| p@);
    let mut k: usize = 0;
    while k < pairs.len()
        invariant
            pv == pairs@.map_values(|p: String| p@),
            pv == query_pairs(url@),
            pairs_ok(pv),
            k <= pairs@.len(),
            token@ == param_value(pv.take(k as int), "token"@),
            session_id@ == param_value(pv.take(k as int), "sessionId"@),
            member_key@ == param_value(pv.take(k as int), "memberKey"@),
        decreases pairs@.len() - k,
    {
        let d = split_str(pairs[k].as_str(), '=');
        proof {
            assert(split_on(pv[k as int], '=').len() >= 2);
            assert(pv.take(k + 1).drop_last() =~= pv.take(k as int));
            assert(pv.take(k + 1).last() == pv[k as int]);
        }
        let key = &d[0];
        let value = &d[1];
        if str_eq(key.as_str(), "token") {
            token = value.clone();
        }
        if str_eq(key.as_str(), "sessionId") {
            session_id = value.clone();
        }
        if str_eq(key.as_str(), "memberKey") {
            member_key = value.clone();
        }
        k = k + 1;
    }
    proof {
        assert(pv.take(pv.len() as int) =~= pv);
    }
    LoginInfo { token, session_id, member_key }
}

/// The request line's path and the header slots of an HTTP request head.
pub struct RequestHead {
    pub path: Option<String>,
    pub headers: Vec<(String, Vec<u8>)>,
}

impl RequestHead {
    pub open spec fn view_path(&self) -> Option<Seq<char>> {
        match self.path {
            Some(p) => Some(p@),
            None => None,
        }
    }

    pub open spec fn view_headers(&self) -> Seq<(Seq<char>, Seq<u8>)> {
        self.headers@.map_values(|h: (String, Vec<u8>)| (h.0@, h.1@))
    }
}

/// What `httparse::Request::parse` makes of a buffer with room for sixteen
/// headers: nothing when it reports an error; otherwise the path (if the
/// request line was complete) and the sixteen header slots, unused ones with
/// an empty name and value.
pub uninterp spec fn http_head(buf: Seq<u8>) -> Option<(Option<Seq<char>>, Seq<(Seq<char>, Seq<u8>)>)>;

/// Parses a request head with `httparse::Request::parse` into sixteen header
/// slots; the result is named `http_head` and nothing more is claimed of it.
#[verifier::external_body]
fn parse_request_head(buf: &[u8]) -> (res: Option<RequestHead>)
    ensures
        res is None <==> http_head(buf@) is None,
        res matches Some(h) ==> http_head(buf@) == Some((h.view_path(), h.view_headers())),
{
    let mut headers = [httparse::EMPTY_HEADER; 16];
    let mut request = httparse::Request::new(&mut headers);
    if request.parse(buf).is_err() {
        return None;
    }
    let path = request.path.map(|p| p.to_string());
    let headers = headers.iter().map(|h| (h.name.to_string(), h.value.to_vec())).collect();
    Some(RequestHead { path, headers })
}

/// What `String::from_utf8_lossy` makes of some bytes.
pub uninterp spec fn utf8_lossy(b: Seq<u8>) -> Seq<char>;

/// Decodes bytes with `String::from_utf8_lossy`. The result is named
/// `utf8_lossy`; of valid UTF-8 it is the decoded text, as the function's
/// documentation states. What replaces invalid sequences is left unsaid.
#[verifier::external_body]
fn lossy_string(b: &[u8]) -> (res: String)
    ensures
        res@ == utf8_lossy(b@),
        vstd::utf8::valid_utf8(b@) ==> res@ == vstd::utf8::decode_utf8(b@),
{
    String::from_utf8_lossy(b).to_string()
}

/// The decimal digits of `n`.
pub open spec fn decimal(n: nat) -> Seq<char>
    decreases n,
{
    if n < 10 {
        seq![(48 + n) as char]
    } else {
        decimal(n / 10).push((48 + n % 10) as char)
    }
}

fn write_decimal(n: u32, out: &mut String)
    ensures
        final(out)@ == old(out)@ + decimal(n as nat),
    decreases n,
{
    if n >= 10 {
        write_decimal(n / 10, out);
    }
    let d: u8 = (n % 10) as u8;
    push_char(out, (48u8 + d) as char);
    proof {
        assert(old(out)@ + decimal(n as nat) =~= (if n >= 10 { old(out)@ + decimal((n / 10) as nat) } else {
            old(out)@
        }).push((48 + n % 10) as char));
    }
}

/// The host that the callback script fetches from.
pub open spec fn callback_host(localhost: bool) -> Seq<char> {
    if localhost {
        "localhost"@
    } else {
        "127.0.0.1"@
    }
}

/// The script that sends the page's address back to the login server.
pub open spec fn callback_script(localhost: bool, port: u16) -> Seq<char> {
    "<script>fetch(\"http://"@ + callback_host(localhost) + ":"@ + decimal(port as nat)
        + "/cb\",{headers:{\"Full-Url\":window.location.href}})</script>"@
}

/// The page served with the callback script placed in it: in the page's
/// head, or in a head before its body, or in a head before the page; a
/// default page without one.
pub open spec fn reply_page(response: Option<Seq<char>>, script: Seq<char>) -> Seq<char> {
    match response {
        Some(s) => if has_substring(s, "<head>"@) {
            replace_all(s, "<head>"@, "<head>"@ + script)
        } else if has_substring(s, "<body>"@) {
            replace_all(s, "<body>"@, "<head>"@ + script + "</head><body>"@)
        } else {
            "<head>"@ + script + "</head>"@ + s
        },
        None => "<html><head>"@ + script + "</head><body>Please return to the app.</body></html>"@,
    }
}

/// The first header slot named `Full-Url`.
pub open spec fn full_url_index(headers: Seq<(Seq<char>, Seq<u8>)>) -> Option<nat>
    decreases headers.len(),
{
    if headers.len() == 0 {
        None
    } else if headers[0].0 == "Full-Url"@ {
        Some(0)
    } else {
        match full_url_index(headers.drop_first()) {
            Some(i) => Some(i + 1),
            None => None,
        }
    }
}

/// Whether the last `Host` header names `localhost`.
pub open spec fn host_is_local(headers: Seq<(Seq<char>, Seq<u8>)>) -> bool
    decreases headers.len(),
{
    if headers.len() == 0 {
        false
    } else if headers.last().0 == "Host"@ {
        starts_with(utf8_lossy(headers.last().1), "localhost"@)
    } else {
        host_is_local(headers.drop_last())
    }
}

/// What the login server does with one request.
pub enum Connection {
    /// The request could not be parsed; nothing is answered.
    Ignore,
    /// The request asks the server to stop.
    Exit,
    /// The request carries the page address of the login redirect.
    Redirect(String),
    /// The request is answered with this page.
    Reply(String),
}

/// The outcome for a parsed request head: stop on `/exit`; the address of
/// the first `Full-Url` header; otherwise the page with the callback script.
pub open spec fn outcome_of(
    path: Option<Seq<char>>,
    headers: Seq<(Seq<char>, Seq<u8>)>,
    response: Option<Seq<char>>,
    port: u16,
) -> (int, Seq<char>) {
    let p = match path {
        Some(p) => p,
        None => Seq::empty(),
    };
    if p == "/exit"@ {
        (1, Seq::empty())
    } else {
        match full_url_index(headers) {
            Some(i) => (2, utf8_lossy(headers[i as int].1)),
            None => (3, reply_page(response, callback_script(host_is_local(headers), port))),
        }
    }
}

proof fn lemma_full_url_index(headers: Seq<(Seq<char>, Seq<u8>)>)
    ensures
        full_url_index(headers) matches Some(i) ==> i < headers.len() && headers[i as int].0 == "Full-Url"@
            && forall|k: int| 0 <= k < i ==> headers[k].0 != "Full-Url"@,
        full_url_index(headers) is None ==> forall|k: int| 0 <= k < headers.len() ==> headers[k].0 != "Full-Url"@,
    decreases headers.len(),
{
    if headers.len() > 0 && headers[0].0 != "Full-Url"@ {
        lemma_full_url_index(headers.drop_first());
        assert forall|k: int| 0 < k < headers.len() implies headers[k] == headers.drop_first()[k - 1] by {
        }
    }
}

fn build_page(response: Option<&str>, script: &String) -> (page: String)
    ensures
        page@ == reply_page(
            match response {
                Some(s) => Some(s@),
                None => None,
            },
            script@,
        ),
{
    proof {
        reveal_strlit("<head>");
        reveal_strlit("<body>");
    }
    match response {
        Some(s) => {
            if contains_str(s, "<head>") {
                let mut with = String::new();
                append_str(&mut with, "<head>");
                append_str(&mut with, script.as_str());
                replace_str(s, "<head>", with.as_str())
            } else if contains_str(s, "<body>") {
                let mut with = String::new();
                append_str(&mut with, "<head>");
                append_str(&mut with, script.as_str());
                append_str(&mut with, "</head><body>");
                replace_str(s, "<body>", with.as_str())
            } else {
                let mut page = String::new();
                append_str(&mut page, "<head>");
                append_str(&mut page, script.as_str());
                append_str(&mut page, "</head>");
                append_str(&mut page, s);
                page
            }
        },
        None => {
            let mut page = String::new();
            append_str(&mut page, "<html><head>");
            append_str(&mut page, script.as_str());
            append_str(&mut page, "</head><body>Please return to the app.</body></html>");
            page
        },
    }
}

/// Answers one request to the login server from the bytes read for it: the
/// request head is parsed with room for sixteen headers; `/exit` stops the
/// server; the first `Full-Url` header carries the redirect address;
/// otherwise the page `response` (or a default page) is served with a script
/// that fetches `/cb` on this port from `localhost` when the last `Host`
/// header names it, from `127.0.0.1` otherwise.
pub fn handle_connection(buffer: &[u8], response: Option<&str>, port: u16) -> (c: Connection)
    ensures
        http_head(buffer@) is None ==> c is Ignore,
        http_head(buffer@) matches Some((path, headers)) ==> {
            let o = outcome_of(
                path,
                headers,
                match response {
                    Some(s) => Some(s@),
                    None => None,
                },
                port,
            );
            &&& o.0 == 1 ==> c is Exit
            &&& o.0 == 2 ==> (c matches Connection::Redirect(u) && u@ == o.1)
            &&& o.0 == 3 ==> (c matches Connection::Reply(r) && r@ == o.1)
        },
{
    let head = match parse_request_head(buffer) {
        Some(h) => h,
        None => {
            return Connection::Ignore;
        },
    };
    let ghost hv = head.view_headers();
    let path = match &head.path {
        Some(p) => p.clone(),
        None => String::new(),
    };
    if str_eq(path.as_str(), "/exit") {
        return Connection::Exit;
    }
    let mut is_localhost = false;
    let mut k: usize = 0;
    proof {
        lemma_full_url_index(hv);
    }
    while k < head.headers.len()
        invariant
            hv == head.view_headers(),
            http_head(buffer@) == Some((head.view_path(), hv)),
            path@ == (match head.view_path() {
                Some(p) => p,
                None => Seq::<char>::empty(),
            }),
            path@ != "/exit"@,
            k <= hv.len(),
            forall|m: int| 0 <= m < k ==> hv[m].0 != "Full-Url"@,
            is_localhost == host_is_local(hv.take(k as int)),
            full_url_index(hv) matches Some(i) ==> i < hv.len() && hv[i as int].0 == "Full-Url"@ && forall|m: int|
                0 <= m < i ==> hv[m].0 != "Full-Url"@,
            full_url_index(hv) is None ==> forall|m: int| 0 <= m < hv.len() ==> hv[m].0 != "Full-Url"@,
        decreases hv.len() - k,
    {
        let name = &head.headers[k].0;
        let value = &head.headers[k].1;
        proof {
            assert(hv[k as int] == (name@, value@));
            assert(hv.take(k + 1).drop_last() =~= hv.take(k as int));
        }
        if str_eq(name.as_str(), "Full-Url") {
            proof {
                let i = full_url_index(hv);
                assert(i is Some);
                if i->0 < k {
                    assert(hv[i->0 as int].0 != "Full-Url"@);
                }
            }
            return Connection::Redirect(lossy_string(value.as_slice()));
        } else if str_eq(name.as_str(), "Host") {
            let text = lossy_string(value.as_slice());
            is_localhost = starts_with_str(text.as_str(), "localhost");
        }
        k = k + 1;
    }
    proof {
        assert(hv.take(hv.len() as int) =~= hv);
    }
    let mut script = String::new();
    append_str(&mut script, "<script>fetch(\"http://");
    if is_localhost {
        append_str(&mut script, "localhost");
    } else {
        append_str(&mut script, "127.0.0.1");
    }
    append_str(&mut script, ":");
    write_decimal(port as u32, &mut script);
    append_str(&mut script, "/cb\",{headers:{\"Full-Url\":window.location.href}})</script>");
    Connection::Reply(build_page(response, &script))
}

} // verus!
