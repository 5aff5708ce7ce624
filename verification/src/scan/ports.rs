//! Port lists: parsing of a port range text, the well-known services, and
//! the most commonly scanned ports.

use vstd::prelude::*;
use crate::error::MeshpingError;
use crate::text::{
    chars_of, decimal, lemma_piece_len, piece_len, decimal_chars, extend_chars, find, find_chars, lemma_find_from,
    parse_unsigned, parse_unsigned_chars, slice_copy, split_on, split_on_chars, string_of, trim,
    trim_chars, views,
};

verus! {

/// The ports `start..=end`, in increasing order.
pub open spec fn port_span(start: nat, end: nat) -> Seq<u16> {
    Seq::new((end + 1 - start) as nat, |i: int| (start + i) as u16)
}

/// The message of a range whose start lies above its end: `"{start} > {end}"`.
pub open spec fn reversed_range_message(start: nat, end: nat) -> Seq<char> {
    decimal(start) + seq![' ', '>', ' '] + decimal(end)
}

/// The ports that one comma-separated part stands for (already trimmed), or
/// the message of the error it gives. A part with a `-` is a range split at
/// its first `-`; any other part is a single port.
pub open spec fn part_ports(t: Seq<char>) -> Result<Seq<u16>, Seq<char>> {
    match find(t, seq!['-']) {
        Some(i) => match (parse_unsigned(t.take(i), 65535), parse_unsigned(t.skip(i + 1), 65535)) {
            (Some(start), Some(end)) => if start > end {
                Err(reversed_range_message(start, end))
            } else {
                Ok(port_span(start, end))
            },
            _ => Err(t),
        },
        None => match parse_unsigned(t, 65535) {
            Some(p) => Ok(seq![p as u16]),
            None => Err(t),
        },
    }
}

/// The ports of all parts in order, or the error of the first part that has one.
pub open spec fn parts_ports(parts: Seq<Seq<char>>) -> Result<Seq<u16>, Seq<char>>
    decreases parts.len(),
{
    if parts.len() == 0 {
        Ok(seq![])
    } else {
        match parts_ports(parts.drop_last()) {
            Err(m) => Err(m),
            Ok(a) => match part_ports(trim(parts.last())) {
                Err(m) => Err(m),
                Ok(b) => Ok(a + b),
            },
        }
    }
}

/// What `parse_port_range` gives for a text: the ports, or the message of
/// its `InvalidPortRange` error.
pub open spec fn port_list(input: Seq<char>) -> Result<Seq<u16>, Seq<char>> {
    match parts_ports(split_on(input, ',')) {
        Err(m) => Err(m),
        Ok(ps) => if ps.len() == 0 {
            Err(input)
        } else {
            Ok(ps)
        },
    }
}

/// Appends the ports `start..=end` to `ports`.
fn push_span(ports: &mut Vec<u16>, start: u16, end: u16)
    requires
        start <= end,
    ensures
        final(ports)@ == old(ports)@ + port_span(start as nat, end as nat),
{
    let ghost base = ports@;
    let ghost span = port_span(start as nat, end as nat);
    let mut p = start;
    loop
        invariant
            start <= p <= end,
            span == port_span(start as nat, end as nat),
            base == old(ports)@,
            ports@ == base + span.take(p - start),
        decreases end - p,
    {
        ports.push(p);
        assert(span.take(p - start + 1) =~= span.take(p - start).push(p));
        assert(base + span.take(p - start + 1) =~= (base + span.take(p - start)).push(p));
        if p == end {
            assert(span.take(p - start + 1) =~= span);
            return ;
        }
        p = p + 1;
    }
}

/// Reads one trimmed part: appends its ports to `ports`, or gives the
/// message of its error.
fn push_part(ports: &mut Vec<u16>, t: &[char]) -> (r: Result<(), Vec<char>>)
    ensures
        match part_ports(t@) {
            Ok(ps) => r is Ok && final(ports)@ == old(ports)@ + ps,
            Err(m) => r matches Err(e) && e@ == m,
        },
{
    let dash: Vec<char> = vec!['-'];
    assert(dash@ =~= seq!['-']);
    match find_chars(t, &dash) {
        Some(i) => {
            proof {
                lemma_find_from(t@, dash@, 0);
            }
            assert(i + 1 <= t.len());
            assert(t@.subrange(0, i as int) =~= t@.take(i as int));
            assert(t@.subrange(i + 1, t@.len() as int) =~= t@.skip(i + 1));
            let a = slice_copy(t, 0, i);
            let b = slice_copy(t, i + 1, t.len());
            let start = parse_unsigned_chars(&a, 65535);
            let end = parse_unsigned_chars(&b, 65535);
            match (start, end) {
                (Some(s), Some(e)) => {
                    if s > e {
                        let mut m = decimal_chars(s as u64);
                        m.push(' ');
                        m.push('>');
                        m.push(' ');
                        let ghost m1 = m@;
                        extend_chars(&mut m, &decimal_chars(e as u64));
                        assert(m1 =~= decimal(s as nat) + seq![' ', '>', ' ']);
                        Err(m)
                    } else {
                        push_span(ports, s as u16, e as u16);
                        Ok(())
                    }
                },
                _ => Err(slice_copy(t, 0, t.len())),
            }
        },
        None => match parse_unsigned_chars(t, 65535) {
            Some(p) => {
                ports.push(p as u16);
                assert(old(ports)@.push(p as u16) =~= old(ports)@ + seq![p as u16]);
                Ok(())
            },
            None => Err(slice_copy(t, 0, t.len())),
        },
    }
}

/// Parses a port range text into a list of ports.
/// Supports: "80", "80,443,8080", "1-1024", "80,443,8000-9000".
/// The parts are separated by commas and trimmed of white space; a part
/// with a `-` is an inclusive range, any other a single port. The ports
/// come out in the order of the text, ranges ascending.
pub fn parse_port_range(input: &str) -> (r: Result<Vec<u16>, MeshpingError>)
    ensures
        match port_list(input@) {
            Ok(ps) => r matches Ok(v) && v@ == ps,
            Err(m) => r matches Err(MeshpingError::InvalidPortRange(e)) && e@ == m,
        },
{
    let text = chars_of(input);
    let parts = split_on_chars(&text, ',');
    let ghost all = views(parts@);
    let mut ports: Vec<u16> = Vec::new();
    for k in 0..parts.len()
        invariant
            all == views(parts@),
            all == split_on(input@, ','),
            parts_ports(all.take(k as int)) == Ok::<Seq<u16>, Seq<char>>(ports@),
    {
        let t = trim_chars(&parts[k]);
        assert(all.take(k + 1).drop_last() =~= all.take(k as int));
        assert(all.take(k + 1).last() == parts@[k as int]@);
        match push_part(&mut ports, &t) {
            Ok(()) => {},
            Err(m) => {
                proof {
                    lemma_parts_error(all, k as int + 1);
                }
                return Err(MeshpingError::InvalidPortRange(string_of(&m)));
            },
        }
    }
    assert(all.take(parts@.len() as int) =~= all);
    if ports.len() == 0 {
        return Err(MeshpingError::InvalidPortRange(input.to_string()));
    }
    Ok(ports)
}

/// An error in the first `k` parts is the error of the whole list.
proof fn lemma_parts_error(parts: Seq<Seq<char>>, k: int)
    requires
        0 <= k <= parts.len(),
        parts_ports(parts.take(k)) is Err,
    ensures
        parts_ports(parts) == parts_ports(parts.take(k)),
    decreases parts.len() - k,
{
    if k < parts.len() {
        assert(parts.take(k + 1).drop_last() =~= parts.take(k));
        lemma_parts_error(parts, k + 1);
    } else {
        assert(parts.take(k) =~= parts);
    }
}

/// The well-known service of a port.
pub open spec fn known_service(port: u16) -> Option<Seq<char>> {
    match port {
        20 => Some("ftp-data"@),
        21 => Some("ftp"@),
        22 => Some("ssh"@),
        23 => Some("telnet"@),
        25 => Some("smtp"@),
        53 => Some("dns"@),
        80 => Some("http"@),
        110 => Some("pop3"@),
        111 => Some("rpcbind"@),
        135 => Some("msrpc"@),
        139 => Some("netbios"@),
        143 => Some("imap"@),
        443 => Some("https"@),
        445 => Some("smb"@),
        465 => Some("smtps"@),
        587 => Some("submission"@),
        993 => Some("imaps"@),
        995 => Some("pop3s"@),
        1433 => Some("mssql"@),
        1521 => Some("oracle"@),
        3306 => Some("mysql"@),
        3389 => Some("rdp"@),
        5432 => Some("postgresql"@),
        5672 => Some("amqp"@),
        5900 => Some("vnc"@),
        6379 => Some("redis"@),
        8080 => Some("http-alt"@),
        8443 => Some("https-alt"@),
        9090 => Some("prometheus"@),
        9200 => Some("elasticsearch"@),
        27017 => Some("mongodb"@),
        _ => None,
    }
}

/// Get the well-known service name for a port.
pub fn service_name(port: u16) -> (r: Option<&'static str>)
    ensures
        r matches Some(name) ==> known_service(port) == Some(name@),
        r is None ==> known_service(port) is None,
{
    match port {
        20 => Some("ftp-data"),
        21 => Some("ftp"),
        22 => Some("ssh"),
        23 => Some("telnet"),
        25 => Some("smtp"),
        53 => Some("dns"),
        80 => Some("http"),
        110 => Some("pop3"),
        111 => Some("rpcbind"),
        135 => Some("msrpc"),
        139 => Some("netbios"),
        143 => Some("imap"),
        443 => Some("https"),
        445 => Some("smb"),
        465 => Some("smtps"),
        587 => Some("submission"),
        993 => Some("imaps"),
        995 => Some("pop3s"),
        1433 => Some("mssql"),
        1521 => Some("oracle"),
        3306 => Some("mysql"),
        3389 => Some("rdp"),
        5432 => Some("postgresql"),
        5672 => Some("amqp"),
        5900 => Some("vnc"),
        6379 => Some("redis"),
        8080 => Some("http-alt"),
        8443 => Some("https-alt"),
        9090 => Some("prometheus"),
        9200 => Some("elasticsearch"),
        27017 => Some("mongodb"),
        _ => None,
    }
}

/// The well-known services, port by port, as the scanner names them.
pub open spec fn service_table() -> Seq<(u16, Seq<char>)> {
    seq![
        (20u16, "ftp-data"@),
        (21u16, "ftp"@),
        (22u16, "ssh"@),
        (23u16, "telnet"@),
        (25u16, "smtp"@),
        (53u16, "dns"@),
        (80u16, "http"@),
        (110u16, "pop3"@),
        (111u16, "rpcbind"@),
        (135u16, "msrpc"@),
        (139u16, "netbios"@),
        (143u16, "imap"@),
        (443u16, "https"@),
        (445u16, "smb"@),
        (465u16, "smtps"@),
        (587u16, "submission"@),
        (993u16, "imaps"@),
        (995u16, "pop3s"@),
        (1433u16, "mssql"@),
        (1521u16, "oracle"@),
        (3306u16, "mysql"@),
        (3389u16, "rdp"@),
        (5432u16, "postgresql"@),
        (5672u16, "amqp"@),
        (5900u16, "vnc"@),
        (6379u16, "redis"@),
        (8080u16, "http-alt"@),
        (8443u16, "https-alt"@),
        (9090u16, "prometheus"@),
        (9200u16, "elasticsearch"@),
        (27017u16, "mongodb"@),
    ]
}

/// A port has a well-known service exactly when it is in the service
/// table, and then the service is the table's name for it.
pub proof fn law_service_table(port: u16)
    ensures
        forall|i: int|
            0 <= i < service_table().len() ==> known_service(#[trigger] service_table()[i].0)
                == Some(service_table()[i].1),
        known_service(port) is Some <==> exists|i: int|
            0 <= i < service_table().len() && #[trigger] service_table()[i].0 == port,
{
    let t = service_table();
    assert(t.len() == 31);
    assert forall|i: int| 0 <= i < t.len() implies known_service(#[trigger] t[i].0) == Some(t[i].1) by {
        assert(t[0] == (20u16, "ftp-data"@) && t[1] == (21u16, "ftp"@) && t[2] == (22u16, "ssh"@));
        assert(t[3] == (23u16, "telnet"@) && t[4] == (25u16, "smtp"@) && t[5] == (53u16, "dns"@));
        assert(t[6] == (80u16, "http"@) && t[7] == (110u16, "pop3"@) && t[8] == (111u16, "rpcbind"@));
        assert(t[9] == (135u16, "msrpc"@) && t[10] == (139u16, "netbios"@) && t[11] == (143u16, "imap"@));
        assert(t[12] == (443u16, "https"@) && t[13] == (445u16, "smb"@) && t[14] == (465u16, "smtps"@));
        assert(t[15] == (587u16, "submission"@) && t[16] == (993u16, "imaps"@) && t[17] == (995u16, "pop3s"@));
        assert(t[18] == (1433u16, "mssql"@) && t[19] == (1521u16, "oracle"@) && t[20] == (3306u16, "mysql"@));
        assert(t[21] == (3389u16, "rdp"@) && t[22] == (5432u16, "postgresql"@) && t[23] == (5672u16, "amqp"@));
        assert(t[24] == (5900u16, "vnc"@) && t[25] == (6379u16, "redis"@) && t[26] == (8080u16, "http-alt"@));
        assert(t[27] == (8443u16, "https-alt"@) && t[28] == (9090u16, "prometheus"@) && t[29] == (9200u16, "elasticsearch"@));
        assert(t[30] == (27017u16, "mongodb"@));
    }
    if known_service(port) is Some {
        if port == 20 {
            assert(t[0] == (20u16, "ftp-data"@));
            assert(t[0].0 == port);
        } else if port == 21 {
            assert(t[1] == (21u16, "ftp"@));
            assert(t[1].0 == port);
        } else if port == 22 {
            assert(t[2] == (22u16, "ssh"@));
            assert(t[2].0 == port);
        } else if port == 23 {
            assert(t[3] == (23u16, "telnet"@));
            assert(t[3].0 == port);
        } else if port == 25 {
            assert(t[4] == (25u16, "smtp"@));
            assert(t[4].0 == port);
        } else if port == 53 {
            assert(t[5] == (53u16, "dns"@));
            assert(t[5].0 == port);
        } else if port == 80 {
            assert(t[6] == (80u16, "http"@));
            assert(t[6].0 == port);
        } else if port == 110 {
            assert(t[7] == (110u16, "pop3"@));
            assert(t[7].0 == port);
        } else if port == 111 {
            assert(t[8] == (111u16, "rpcbind"@));
            assert(t[8].0 == port);
        } else if port == 135 {
            assert(t[9] == (135u16, "msrpc"@));
            assert(t[9].0 == port);
        } else if port == 139 {
            assert(t[10] == (139u16, "netbios"@));
            assert(t[10].0 == port);
        } else if port == 143 {
            assert(t[11] == (143u16, "imap"@));
            assert(t[11].0 == port);
        } else if port == 443 {
            assert(t[12] == (443u16, "https"@));
            assert(t[12].0 == port);
        } else if port == 445 {
            assert(t[13] == (445u16, "smb"@));
            assert(t[13].0 == port);
        } else if port == 465 {
            assert(t[14] == (465u16, "smtps"@));
            assert(t[14].0 == port);
        } else if port == 587 {
            assert(t[15] == (587u16, "submission"@));
            assert(t[15].0 == port);
        } else if port == 993 {
            assert(t[16] == (993u16, "imaps"@));
            assert(t[16].0 == port);
        } else if port == 995 {
            assert(t[17] == (995u16, "pop3s"@));
            assert(t[17].0 == port);
        } else if port == 1433 {
            assert(t[18] == (1433u16, "mssql"@));
            assert(t[18].0 == port);
        } else if port == 1521 {
            assert(t[19] == (1521u16, "oracle"@));
            assert(t[19].0 == port);
        } else if port == 3306 {
            assert(t[20] == (3306u16, "mysql"@));
            assert(t[20].0 == port);
        } else if port == 3389 {
            assert(t[21] == (3389u16, "rdp"@));
            assert(t[21].0 == port);
        } else if port == 5432 {
            assert(t[22] == (5432u16, "postgresql"@));
            assert(t[22].0 == port);
        } else if port == 5672 {
            assert(t[23] == (5672u16, "amqp"@));
            assert(t[23].0 == port);
        } else if port == 5900 {
            assert(t[24] == (5900u16, "vnc"@));
            assert(t[24].0 == port);
        } else if port == 6379 {
            assert(t[25] == (6379u16, "redis"@));
            assert(t[25].0 == port);
        } else if port == 8080 {
            assert(t[26] == (8080u16, "http-alt"@));
            assert(t[26].0 == port);
        } else if port == 8443 {
            assert(t[27] == (8443u16, "https-alt"@));
            assert(t[27].0 == port);
        } else if port == 9090 {
            assert(t[28] == (9090u16, "prometheus"@));
            assert(t[28].0 == port);
        } else if port == 9200 {
            assert(t[29] == (9200u16, "elasticsearch"@));
            assert(t[29].0 == port);
        } else if port == 27017 {
            assert(t[30] == (27017u16, "mongodb"@));
            assert(t[30].0 == port);
        }
    } else {
        assert forall|i: int| 0 <= i < t.len() implies #[trigger] t[i].0 != port by {
        assert(t[0] == (20u16, "ftp-data"@) && t[1] == (21u16, "ftp"@) && t[2] == (22u16, "ssh"@));
        assert(t[3] == (23u16, "telnet"@) && t[4] == (25u16, "smtp"@) && t[5] == (53u16, "dns"@));
        assert(t[6] == (80u16, "http"@) && t[7] == (110u16, "pop3"@) && t[8] == (111u16, "rpcbind"@));
        assert(t[9] == (135u16, "msrpc"@) && t[10] == (139u16, "netbios"@) && t[11] == (143u16, "imap"@));
        assert(t[12] == (443u16, "https"@) && t[13] == (445u16, "smb"@) && t[14] == (465u16, "smtps"@));
        assert(t[15] == (587u16, "submission"@) && t[16] == (993u16, "imaps"@) && t[17] == (995u16, "pop3s"@));
        assert(t[18] == (1433u16, "mssql"@) && t[19] == (1521u16, "oracle"@) && t[20] == (3306u16, "mysql"@));
        assert(t[21] == (3389u16, "rdp"@) && t[22] == (5432u16, "postgresql"@) && t[23] == (5672u16, "amqp"@));
        assert(t[24] == (5900u16, "vnc"@) && t[25] == (6379u16, "redis"@) && t[26] == (8080u16, "http-alt"@));
        assert(t[27] == (8443u16, "https-alt"@) && t[28] == (9090u16, "prometheus"@) && t[29] == (9200u16, "elasticsearch"@));
        assert(t[30] == (27017u16, "mongodb"@));
        }
    }
}

/// The most commonly scanned ports, most common first.
pub open spec fn common_ports() -> Seq<u16> {
    seq![21, 22, 23, 25, 53, 80, 110, 111, 135, 139, 143, 443, 445, 465, 587, 993, 995, 1433, 1521, 3306, 3389, 5432, 5672, 5900, 6379, 8080, 8443, 9090, 9200, 27017]
}

/// Return the top N most commonly scanned ports: the first `n` of
/// `common_ports()`, or all of them where `n` is larger.
pub fn top_ports(n: usize) -> (r: Vec<u16>)
    ensures
        r@ == common_ports().take(if n < 30 { n as int } else { 30 }),
{
    let common: Vec<u16> = vec![21, 22, 23, 25, 53, 80, 110, 111, 135, 139, 143, 443, 445, 465, 587, 993, 995, 1433, 1521, 3306, 3389, 5432, 5672, 5900, 6379, 8080, 8443, 9090, 9200, 27017];
    assert(common@ =~= common_ports());
    let count = if n < common.len() { n } else { common.len() };
    let mut r: Vec<u16> = Vec::new();
    for i in 0..count
        invariant
            count <= common@.len(),
            common@ == common_ports(),
            r@ == common@.take(i as int),
    {
        r.push(common[i]);
        assert(common@.take(i + 1) =~= common@.take(i as int).push(common@[i as int]));
    }
    r
}

/// Every one of the most commonly scanned ports has a well-known service.
pub proof fn law_top_ports_have_services()
    ensures
        forall|i: int| 0 <= i < common_ports().len() ==> #[trigger] known_service(common_ports()[i])
            is Some,
{
    let c = common_ports();
    assert(c.len() == 30);
    assert forall|i: int| 0 <= i < c.len() implies #[trigger] known_service(c[i]) is Some by {
        assert(c[0] == 21 && c[1] == 22 && c[2] == 23 && c[3] == 25 && c[4] == 53 && c[5] == 80);
        assert(c[6] == 110 && c[7] == 111 && c[8] == 135 && c[9] == 139 && c[10] == 143);
        assert(c[11] == 443 && c[12] == 445 && c[13] == 465 && c[14] == 587 && c[15] == 993);
        assert(c[16] == 995 && c[17] == 1433 && c[18] == 1521 && c[19] == 3306 && c[20] == 3389);
        assert(c[21] == 5432 && c[22] == 5672 && c[23] == 5900 && c[24] == 6379 && c[25] == 8080);
        assert(c[26] == 8443 && c[27] == 9090 && c[28] == 9200 && c[29] == 27017);
    }
}

/// Asking for fewer top ports gives a prefix of asking for more.
pub proof fn law_top_ports_prefix(n: int, m: int)
    requires
        0 <= n <= m,
    ensures
        ({
            let a = common_ports().take(if n < 30 { n } else { 30 });
            let b = common_ports().take(if m < 30 { m } else { 30 });
            a.len() <= b.len() && b.take(a.len() as int) == a
        }),
{
    let a = common_ports().take(if n < 30 { n } else { 30 });
    let b = common_ports().take(if m < 30 { m } else { 30 });
    assert(b.take(a.len() as int) =~= a);
}

proof fn lemma_split_concat(x: Seq<char>, y: Seq<char>, sep: char)
    ensures
        split_on(x + seq![sep] + y, sep) == split_on(x, sep) + split_on(y, sep),
    decreases x.len(),
{
    let s = x + seq![sep] + y;
    lemma_piece_len(x, sep);
    lemma_piece_len(s, sep);
    let k = piece_len(x, sep);
    assert(piece_len(s, sep) == k) by {
        if piece_len(s, sep) < k {
            assert(s[piece_len(s, sep) as int] == x[piece_len(s, sep) as int]);
        } else if piece_len(s, sep) > k {
            if k < x.len() {
                assert(s[k as int] == x[k as int]);
            } else {
                assert(s[k as int] == sep);
            }
        }
    }
    if k < x.len() {
        let x2 = x.skip(k as int + 1);
        assert(s.skip(k as int + 1) =~= x2 + seq![sep] + y);
        assert(s.take(k as int) =~= x.take(k as int));
        lemma_split_concat(x2, y, sep);
        assert(split_on(s, sep) =~= seq![x.take(k as int)] + (split_on(x2, sep) + split_on(y, sep)));
    } else {
        assert(s.take(k as int) =~= x);
        assert(s.skip(k as int + 1) =~= y);
    }
}

proof fn lemma_parts_concat(a: Seq<Seq<char>>, b: Seq<Seq<char>>)
    requires
        parts_ports(a) is Ok,
        parts_ports(b) is Ok,
    ensures
        parts_ports(a + b) == Ok::<Seq<u16>, Seq<char>>(
            parts_ports(a)->Ok_0 + parts_ports(b)->Ok_0,
        ),
    decreases b.len(),
{
    if b.len() == 0 {
        assert(a + b =~= a);
        assert(parts_ports(a)->Ok_0 + seq![] =~= parts_ports(a)->Ok_0);
    } else {
        lemma_parts_concat(a, b.drop_last());
        assert((a + b).drop_last() =~= a + b.drop_last());
        assert((a + b).last() == b.last());
        let pa = parts_ports(a)->Ok_0;
        let pb = parts_ports(b.drop_last())->Ok_0;
        let pl = part_ports(trim(b.last()))->Ok_0;
        assert(pa + pb + pl =~= pa + (pb + pl));
    }
}

/// A comma joins two port lists: the ports of `x,y` are the ports of `x`
/// followed by the ports of `y`.
pub proof fn law_port_lists_concatenate(x: Seq<char>, y: Seq<char>)
    requires
        port_list(x) is Ok,
        port_list(y) is Ok,
    ensures
        port_list(x + seq![','] + y) == Ok::<Seq<u16>, Seq<char>>(
            port_list(x)->Ok_0 + port_list(y)->Ok_0,
        ),
{
    lemma_split_concat(x, y, ',');
    lemma_parts_concat(split_on(x, ','), split_on(y, ','));
}

/// A range `start-end` with `start <= end` stands for each port from
/// `start` to `end`, once and in order.
pub proof fn law_range_is_consecutive(start: nat, end: nat)
    requires
        start <= end <= 65535,
    ensures
        port_span(start, end).len() == end - start + 1,
        port_span(start, end)[0] == start,
        port_span(start, end).last() == end,
        forall|i: int|
            0 <= i < end - start ==> #[trigger] port_span(start, end)[i + 1] == port_span(
                start,
                end,
            )[i] + 1,
{
}

} // verus!
