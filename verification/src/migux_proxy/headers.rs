//! The header fields that a request has on its way to an upstream.
use crate::headers::{self, head_lines, is_named, parse_fields};
use crate::text::{chars_of, string_of};
use crate::written;
use vstd::prelude::*;

verus! {

/// Whether a name, in lower case, is that of a field that says where a request
/// came from.
pub open spec fn forwarding_name(n: Seq<char>) -> bool {
    ||| n == "x-forwarded-for"@
    ||| n == "x-real-ip"@
    ||| n == "x-forwarded-proto"@
    ||| n == "x-forwarded-host"@
}

/// Whether a name, in lower case, is that of a field that holds for one
/// connection alone.
pub open spec fn hop_by_hop_name(n: Seq<char>) -> bool {
    ||| n == "connection"@
    ||| n == "keep-alive"@
    ||| n == "proxy-connection"@
    ||| n == "te"@
    ||| n == "trailer"@
    ||| n == "transfer-encoding"@
    ||| n == "upgrade"@
}

/// Whether a field is passed on.
pub open spec fn passed_on(f: (Seq<char>, Seq<char>)) -> bool {
    let n = crate::text::lower(f.0);
    !forwarding_name(n) && !hop_by_hop_name(n)
}

/// The fields that are passed on, in order.
pub open spec fn kept_fields(fields: Seq<(Seq<char>, Seq<char>)>) -> Seq<(Seq<char>, Seq<char>)>
    decreases fields.len(),
{
    if fields.len() == 0 {
        seq![]
    } else if passed_on(fields.last()) {
        kept_fields(fields.drop_last()).push(fields.last())
    } else {
        kept_fields(fields.drop_last())
    }
}

/// The value of the last `Host` field.
pub open spec fn last_host(fields: Seq<(Seq<char>, Seq<char>)>) -> Option<Seq<char>>
    decreases fields.len(),
{
    if fields.len() == 0 {
        None
    } else if headers::named(fields.last(), "host"@) {
        Some(fields.last().1)
    } else {
        last_host(fields.drop_last())
    }
}

/// The fields that say where the request came from.
pub open spec fn added_fields(ip: Seq<char>, host: Option<Seq<char>>, keep_alive: bool) -> Seq<
    (Seq<char>, Seq<char>),
> {
    let from = seq![
        ("X-Forwarded-For"@, ip),
        ("X-Real-IP"@, ip),
        ("X-Forwarded-Proto"@, "http"@),
    ];
    let with_host = match host {
        Some(h) => from.push(("X-Forwarded-Host"@, h)),
        None => from,
    };
    with_host.push(
        (
            "Connection"@,
            if keep_alive {
                "keep-alive"@
            } else {
                "close"@
            },
        ),
    )
}

/// The fields of a request on its way to an upstream.
pub open spec fn upstream_fields(head: Seq<char>, ip: Seq<char>, keep_alive: bool) -> Seq<
    (Seq<char>, Seq<char>),
> {
    let fields = headers::header_fields(head);
    kept_fields(fields) + added_fields(ip, last_host(fields), keep_alive)
}

/// Whether a name is that of a field that is passed on.
fn name_passed_on(name: &[char]) -> (r: bool)
    ensures
        r == (!forwarding_name(crate::text::lower(name@)) && !hop_by_hop_name(
            crate::text::lower(name@),
        )),
{
    !(is_named(name, "x-forwarded-for") || is_named(name, "x-real-ip") || is_named(
        name,
        "x-forwarded-proto",
    ) || is_named(name, "x-forwarded-host") || is_named(name, "connection") || is_named(
        name,
        "keep-alive",
    ) || is_named(name, "proxy-connection") || is_named(name, "te") || is_named(name, "trailer")
        || is_named(name, "transfer-encoding") || is_named(name, "upgrade"))
}

/// Appends a header line.
pub(crate) fn push_field(
    out: &mut String,
    name: &str,
    value: &str,
    Ghost(fields): Ghost<Seq<(Seq<char>, Seq<char>)>>,
)
    requires
        old(out)@ == written::field_lines(fields),
    ensures
        final(out)@ == written::field_lines(fields.push((name@, value@))),
{
    assert(fields.push((name@, value@)).drop_last() =~= fields);
    let ghost before = out@;
    out.append(name);
    out.append(": ");
    out.append(value);
    out.append("\r\n");
    assert(out@ =~= before + written::field_line((name@, value@)));
}

/// Rewrites the header fields of a request for an upstream.
pub fn rewrite_proxy_headers(req_headers: &str, client_ip: &str, keep_alive: bool) -> (r: String)
    ensures
        r@ == written::field_lines(upstream_fields(req_headers@, client_ip@, keep_alive)),
{
    let hc = chars_of(req_headers);
    let ls = head_lines(hc.as_slice());
    let fields = parse_fields(&ls);
    let ghost all = headers::header_fields(req_headers@);
    assert(headers::pair_views(fields@) =~= all);
    let mut out = String::new();
    let mut host: Option<String> = None;
    assert(all.take(0) =~= seq![]);
    assert(out@ =~= seq![]);
    for i in 0..fields.len()
        invariant
            headers::pair_views(fields@) == all,
            out@ == written::field_lines(kept_fields(all.take(i as int))),
            match host {
                Some(h) => last_host(all.take(i as int)) == Some(h@),
                None => last_host(all.take(i as int)) is None,
            },
    {
        assert(all.take(i + 1).drop_last() =~= all.take(i as int));
        let (name, value) = fields[i];
        assert(all[i as int] == (name@, value@));
        if is_named(name, "host") {
            host = Some(string_of(value));
        }
        if name_passed_on(name) {
            let n = string_of(name);
            let v = string_of(value);
            push_field(
                &mut out,
                n.as_str(),
                v.as_str(),
                Ghost(kept_fields(all.take(i as int))),
            );
        }
    }
    assert(all.take(fields@.len() as int) =~= all);
    let ghost kept = kept_fields(all);
    push_field(&mut out, "X-Forwarded-For", client_ip, Ghost(kept));
    let ghost f1 = kept.push(("X-Forwarded-For"@, client_ip@));
    push_field(&mut out, "X-Real-IP", client_ip, Ghost(f1));
    let ghost f2 = f1.push(("X-Real-IP"@, client_ip@));
    push_field(&mut out, "X-Forwarded-Proto", "http", Ghost(f2));
    let ghost mut f3 = f2.push(("X-Forwarded-Proto"@, "http"@));
    match &host {
        Some(h) => {
            push_field(&mut out, "X-Forwarded-Host", h.as_str(), Ghost(f3));
            proof {
                f3 = f3.push(("X-Forwarded-Host"@, h@));
            }
        },
        None => {},
    }
    let connection = if keep_alive {
        "keep-alive"
    } else {
        "close"
    };
    push_field(&mut out, "Connection", connection, Ghost(f3));
    assert(f3.push(("Connection"@, connection@)) =~= upstream_fields(
        req_headers@,
        client_ip@,
        keep_alive,
    ));
    out
}

proof fn lemma_kept(fields: Seq<(Seq<char>, Seq<char>)>)
    ensures
        forall|i: int| 0 <= i < kept_fields(fields).len() ==> passed_on(#[trigger] kept_fields(fields)[i]),
    decreases fields.len(),
{
    if fields.len() > 0 {
        let rest = kept_fields(fields.drop_last());
        lemma_kept(fields.drop_last());
        assert forall|i: int| 0 <= i < kept_fields(fields).len() implies passed_on(
            #[trigger] kept_fields(fields)[i],
        ) by {
            if i < rest.len() {
                assert(kept_fields(fields)[i] == rest[i]);
            }
        }
    }
}

proof fn lemma_kept_from(fields: Seq<(Seq<char>, Seq<char>)>, f: (Seq<char>, Seq<char>))
    ensures
        kept_fields(fields).contains(f) == (fields.contains(f) && passed_on(f)),
    decreases fields.len(),
{
    if fields.len() > 0 {
        let rest = fields.drop_last();
        lemma_kept_from(rest, f);
        assert(fields =~= rest.push(fields.last()));
        assert(fields.contains(f) == (rest.contains(f) || f == fields.last())) by {
            if rest.contains(f) {
                let i = choose|i: int| 0 <= i < rest.len() && rest[i] == f;
                assert(fields[i] == f);
            }
            if f == fields.last() {
                assert(fields[fields.len() - 1] == f);
            }
        }
        if passed_on(fields.last()) {
            let k = kept_fields(rest);
            let now = k.push(fields.last());
            if k.contains(f) {
                let i = choose|i: int| 0 <= i < k.len() && k[i] == f;
                assert(now[i] == f);
            }
            if f == fields.last() {
                assert(now[k.len() as int] == f);
            }
            if now.contains(f) {
                let i = choose|i: int| 0 <= i < now.len() && now[i] == f;
                if i < k.len() {
                    assert(k[i] == f);
                }
            }
        }
    }
}

/// An upstream gets the client's fields but for those that say where a request
/// came from or that hold for one connection: of the latter it gets one
/// `Connection` field, the last, and of the former those that the proxy adds.
pub proof fn upstream_gets_no_stray_fields(head: Seq<char>, ip: Seq<char>, keep_alive: bool)
    ensures
        ({
            let own = kept_fields(headers::header_fields(head));
            let all = upstream_fields(head, ip, keep_alive);
            &&& forall|i: int| 0 <= i < own.len() ==> passed_on(#[trigger] all[i])
            &&& forall|f: (Seq<char>, Seq<char>)|
                #![trigger own.contains(f)]
                headers::header_fields(head).contains(f) && passed_on(f) ==> own.contains(f)
            &&& all.last().0 == "Connection"@
        }),
{
    let fields = headers::header_fields(head);
    let own = kept_fields(fields);
    lemma_kept(fields);
    assert forall|i: int| 0 <= i < own.len() implies passed_on(
        #[trigger] upstream_fields(head, ip, keep_alive)[i],
    ) by {
        assert(upstream_fields(head, ip, keep_alive)[i] == own[i]);
    }
    assert forall|f: (Seq<char>, Seq<char>)|
        #![trigger own.contains(f)]
        fields.contains(f) && passed_on(f) implies own.contains(f) by {
        lemma_kept_from(fields, f);
    }
}

proof fn lemma_kept_clean(fields: Seq<(Seq<char>, Seq<char>)>)
    requires
        written::all_clean(fields),
    ensures
        written::all_clean(kept_fields(fields)),
        last_host(fields) matches Some(h) ==> written::clean(h),
    decreases fields.len(),
{
    if fields.len() > 0 {
        let rest = fields.drop_last();
        assert forall|i: int| 0 <= i < rest.len() implies written::clean_field(
            #[trigger] rest[i],
        ) by {
            assert(rest[i] == fields[i]);
        }
        lemma_kept_clean(rest);
        assert(written::clean_field(fields[fields.len() - 1]));
    }
}

/// The upstream reads what it is meant to: the header lines that it gets, behind
/// any start line, hold exactly the fields that are passed on and those that
/// are added.
pub proof fn upstream_reads_the_fields(
    line: Seq<char>,
    head: Seq<char>,
    ip: Seq<char>,
    keep_alive: bool,
)
    requires
        !line.contains('\n'),
        written::clean(ip),
    ensures
        headers::header_fields(
            written::head_text(line, upstream_fields(head, ip, keep_alive)),
        ) == upstream_fields(head, ip, keep_alive),
        headers::start_line(written::head_text(line, upstream_fields(head, ip, keep_alive)))
            == line,
{
    let fields = headers::header_fields(head);
    let all = upstream_fields(head, ip, keep_alive);
    written::read_fields_are_clean(head);
    lemma_kept_clean(fields);
    lemma_added_clean(ip, last_host(fields), keep_alive);
    let own = kept_fields(fields);
    let added = added_fields(ip, last_host(fields), keep_alive);
    assert forall|i: int| 0 <= i < all.len() implies written::clean_field(#[trigger] all[i]) by {
        if i < own.len() {
            assert(all[i] == own[i]);
        } else {
            assert(all[i] == added[i - own.len()]);
        }
    }
    written::written_head_reads_back(line, all);
}

proof fn lemma_added_clean(ip: Seq<char>, host: Option<Seq<char>>, keep_alive: bool)
    requires
        written::clean(ip),
        host matches Some(h) ==> written::clean(h),
    ensures
        written::all_clean(added_fields(ip, host, keep_alive)),
{
    reveal_strlit("X-Forwarded-For");
    reveal_strlit("X-Real-IP");
    reveal_strlit("X-Forwarded-Proto");
    reveal_strlit("X-Forwarded-Host");
    reveal_strlit("Connection");
    reveal_strlit("http");
    reveal_strlit("keep-alive");
    reveal_strlit("close");
    assert(written::clean_field(("X-Forwarded-For"@, ip)));
    assert(written::clean_field(("X-Real-IP"@, ip)));
    assert(written::clean_field(("X-Forwarded-Proto"@, "http"@)));
    assert(written::clean_field(("Connection"@, "keep-alive"@)));
    assert(written::clean_field(("Connection"@, "close"@)));
    match host {
        Some(h) => {
            assert(written::clean_field(("X-Forwarded-Host"@, h)));
        },
        None => {},
    }
}

// ---------------------------------------------------------------------------
// Which fields go on
// ---------------------------------------------------------------------------

/// The names of the fields that do not go on to an upstream, in lower case.
pub open spec fn dropped_names() -> Seq<Seq<char>> {
    seq![
        "x-forwarded-for"@,
        "x-real-ip"@,
        "x-forwarded-proto"@,
        "x-forwarded-host"@,
        "connection"@,
        "keep-alive"@,
        "proxy-connection"@,
        "te"@,
        "trailer"@,
        "transfer-encoding"@,
        "upgrade"@,
    ]
}

proof fn lemma_dropped(n: Seq<char>)
    ensures
        dropped_names().contains(n) == (forwarding_name(n) || hop_by_hop_name(n)),
{
    let l = dropped_names();
    assert(l[0] == "x-forwarded-for"@ && l[1] == "x-real-ip"@ && l[2] == "x-forwarded-proto"@ && l[3]
        == "x-forwarded-host"@ && l[4] == "connection"@ && l[5] == "keep-alive"@ && l[6]
        == "proxy-connection"@ && l[7] == "te"@ && l[8] == "trailer"@ && l[9] == "transfer-encoding"@
        && l[10] == "upgrade"@);
}

proof fn lemma_kept_is_filter(fields: Seq<(Seq<char>, Seq<char>)>)
    ensures
        kept_fields(fields) == fields.filter(
            |f: (Seq<char>, Seq<char>)| !dropped_names().contains(crate::text::lower(f.0)),
        ),
    decreases fields.len(),
{
    reveal(Seq::filter);
    if fields.len() > 0 {
        lemma_kept_is_filter(fields.drop_last());
        lemma_dropped(crate::text::lower(fields.last().0));
    }
}

proof fn lemma_last_host(fields: Seq<(Seq<char>, Seq<char>)>, i: int)
    requires
        0 <= i < fields.len(),
        crate::text::lower(fields[i].0) == "host"@,
        forall|j: int|
            i < j < fields.len() ==> crate::text::lower((#[trigger] fields[j]).0) != "host"@,
    ensures
        last_host(fields) == Some(fields[i].1),
    decreases fields.len(),
{
    if i < fields.len() - 1 {
        let rest = fields.drop_last();
        assert(crate::text::lower(fields[fields.len() - 1].0) != "host"@);
        assert forall|j: int| i < j < rest.len() implies crate::text::lower((#[trigger] rest[j]).0)
            != "host"@ by {
            assert(rest[j] == fields[j]);
        }
        lemma_last_host(rest, i);
    }
}

proof fn lemma_no_host(fields: Seq<(Seq<char>, Seq<char>)>)
    requires
        forall|j: int|
            0 <= j < fields.len() ==> crate::text::lower((#[trigger] fields[j]).0) != "host"@,
    ensures
        last_host(fields) is None,
    decreases fields.len(),
{
    if fields.len() > 0 {
        let rest = fields.drop_last();
        assert(crate::text::lower(fields[fields.len() - 1].0) != "host"@);
        assert forall|j: int| 0 <= j < rest.len() implies crate::text::lower((#[trigger] rest[j]).0)
            != "host"@ by {
            assert(rest[j] == fields[j]);
        }
        lemma_no_host(rest);
    }
}

/// An upstream gets every field of the client, in order and as it was, but for
/// those with one of the eleven names; behind them the client's address twice,
/// the protocol, the client's last `Host` where it sent one, and whether the
/// connection stays open. `i` is the place of that `Host`.
pub proof fn fields_go_on(head: Seq<char>, ip: Seq<char>, keep_alive: bool, i: int)
    ensures
        ({
            let fields = headers::header_fields(head);
            let own = fields.filter(
                |f: (Seq<char>, Seq<char>)| !dropped_names().contains(crate::text::lower(f.0)),
            );
            let from = seq![
                ("X-Forwarded-For"@, ip),
                ("X-Real-IP"@, ip),
                ("X-Forwarded-Proto"@, "http"@),
            ];
            let end = seq![("Connection"@, if keep_alive {
                "keep-alive"@
            } else {
                "close"@
            })];
            &&& 0 <= i < fields.len() && crate::text::lower(fields[i].0) == "host"@ && (forall|j: int|
                i < j < fields.len() ==> crate::text::lower((#[trigger] fields[j]).0) != "host"@)
                ==> upstream_fields(head, ip, keep_alive) == own + from + seq![
                ("X-Forwarded-Host"@, fields[i].1),
            ] + end
            &&& (forall|j: int|
                0 <= j < fields.len() ==> crate::text::lower((#[trigger] fields[j]).0) != "host"@)
                ==> upstream_fields(head, ip, keep_alive) == own + from + end
        }),
{
    let fields = headers::header_fields(head);
    lemma_kept_is_filter(fields);
    if 0 <= i < fields.len() && crate::text::lower(fields[i].0) == "host"@ && (forall|j: int|
        i < j < fields.len() ==> crate::text::lower((#[trigger] fields[j]).0) != "host"@) {
        lemma_last_host(fields, i);
    }
    if forall|j: int|
        0 <= j < fields.len() ==> crate::text::lower((#[trigger] fields[j]).0) != "host"@ {
        lemma_no_host(fields);
    }
}

} // verus!
