//! Only the host of a remote decides whether it is a known one.

use vstd::prelude::*;

use crate::git::{bare_host, is_known_remote, remote_host};
use crate::numeral::is_digit;
use crate::text::{
    after_last, ascii_lower, before_any, is_space, lemma_index_of, lemma_split_once_by, lower_char,
    pieces, split_once_by, stripped_end, stripped_start, trimmed, trimmed_end,
};
use crate::text_laws::{pieces_of_both, trimmed_of_tight};

verus! {

proof fn lemma_before_any(head: Seq<char>, mark: char, tail: Seq<char>, marks: Seq<char>)
    requires
        forall|i: int| 0 <= i < head.len() ==> !marks.contains(#[trigger] head[i]),
        marks.contains(mark),
    ensures
        before_any(head + seq![mark] + tail, marks) == head,
    decreases head.len(),
{
    let whole = head + seq![mark] + tail;
    if head.len() == 0 {
        assert(whole[0] == mark);
        assert(before_any(whole, marks) =~= head);
    } else {
        let rest = head.drop_first();
        assert(whole[0] == head[0]);
        assert(whole.drop_first() =~= rest + seq![mark] + tail);
        assert forall|i: int| 0 <= i < rest.len() implies !marks.contains(#[trigger] rest[i]) by {
            assert(rest[i] == head[i + 1]);
        }
        lemma_before_any(rest, mark, tail, marks);
        assert(seq![head[0]] + rest =~= head);
    }
}

proof fn lemma_without_last(text: Seq<char>, c: char)
    requires
        !text.contains(c),
    ensures
        after_last(text, c) == text,
    decreases text.len(),
{
    if text.len() > 0 {
        let rest = text.drop_last();
        assert(text.contains(text.last()));
        assert forall|i: int| 0 <= i < rest.len() implies rest[i] != c by {
            assert(text.contains(text[i]));
        }
        lemma_without_last(rest, c);
        assert(rest.push(text.last()) =~= text);
    }
}

proof fn lemma_after_last(head: Seq<char>, c: char, tail: Seq<char>)
    requires
        !tail.contains(c),
    ensures
        after_last(head + seq![c] + tail, c) == tail,
    decreases tail.len(),
{
    let whole = head + seq![c] + tail;
    if tail.len() == 0 {
        assert(whole.last() == c);
        assert(after_last(whole, c) =~= tail);
    } else {
        let rest = tail.drop_last();
        assert(tail.contains(tail.last()));
        assert forall|i: int| 0 <= i < rest.len() implies rest[i] != c by {
            assert(tail.contains(tail[i]));
        }
        assert(whole.last() == tail.last());
        assert(whole.drop_last() =~= head + seq![c] + rest);
        lemma_after_last(head, c, rest);
        assert(rest.push(tail.last()) =~= tail);
    }
}

proof fn lemma_trimmed_tail(head: Seq<char>, tail: Seq<char>)
    requires
        head.len() > 0,
        !is_space(head.last()),
    ensures
        trimmed_end(head + tail) == head + trimmed_end(tail),
    decreases tail.len(),
{
    let whole = head + tail;
    if tail.len() == 0 {
        assert(whole =~= head);
        assert(head + trimmed_end(tail) =~= head);
    } else if is_space(tail.last()) {
        assert(whole.drop_last() =~= head + tail.drop_last());
        lemma_trimmed_tail(head, tail.drop_last());
    }
}

/// The host of an address is that of what stands before its path.
proof fn lemma_address(authority: Seq<char>, path: Seq<char>)
    requires
        forall|i: int|
            0 <= i < authority.len() ==> !seq!['/', '?', '#'].contains(#[trigger] authority[i]),
    ensures
        remote_host("https://"@ + authority + "/"@ + path) == bare_host(authority),
{
    reveal_strlit("https://");
    reveal_strlit("://");
    reveal_strlit("/");
    let marks = seq!['/', '?', '#'];
    let head = "https://"@ + authority + "/"@;
    let remote = head + path;
    assert(remote[0] == 'h');
    assert(head.last() == '/');
    lemma_trimmed_tail(head, path);
    let kept = trimmed_end(path);
    let whole = trimmed(remote);
    assert(whole == head + kept);
    assert(whole[0] == 'h' && whole[1] == 't' && whole[2] == 't' && whole[3] == 'p' && whole[4]
        == 's');
    assert forall|k: int| 0 <= k < 5 implies !(#[trigger] "://"@.is_prefix_of(whole.skip(k))) by {
        assert(whole.skip(k)[0] == whole[k]);
        assert("://"@[0] == ':');
    }
    lemma_split_once_by(whole, "://"@, 5);
    assert("://"@ =~= whole.skip(5).take(3));
    assert("://"@.is_prefix_of(whole.skip(5)));
    let rest = whole.skip(5).skip(3);
    assert(rest =~= authority + seq!['/'] + kept);
    assert(marks[0] == '/');
    lemma_before_any(authority, '/', kept, marks);
}

proof fn lemma_lower_keeps(c: char, kept: char)
    requires
        !('a' <= kept <= 'z') && !('A' <= kept <= 'Z'),
    ensures
        lower_char(c) == kept <==> c == kept,
        is_space(lower_char(c)) <==> is_space(c),
        lower_char(lower_char(c)) == lower_char(c),
{
}

proof fn lemma_lower_stripped(host: Seq<char>)
    ensures
        ascii_lower(stripped_end(ascii_lower(host), '.')) == ascii_lower(stripped_end(host, '.')),
    decreases host.len(),
{
    let lower = ascii_lower(host);
    if host.len() > 0 {
        lemma_lower_keeps(host.last(), '.');
        assert(lower.last() == lower_char(host.last()));
        if host.last() == '.' {
            assert(lower.drop_last() =~= ascii_lower(host.drop_last()));
            lemma_lower_stripped(host.drop_last());
        } else {
            assert forall|i: int| 0 <= i < host.len() implies #[trigger] ascii_lower(lower)[i]
                == lower[i] by {
                lemma_lower_keeps(host[i], '.');
            }
            assert(ascii_lower(lower) =~= lower);
        }
    } else {
        assert(lower =~= host);
    }
}

/// A character that can stand in the name of a host.
pub open spec fn is_host_char(c: char) -> bool {
    !is_space(c) && !seq!['/', '?', '#', '@', ':', '[', ']'].contains(c)
}

proof fn lemma_host_char(c: char)
    requires
        is_host_char(c),
    ensures
        c != '/' && c != '?' && c != '#' && c != '@' && c != ':' && c != '[' && c != ']',
        is_host_char(lower_char(c)),
{
    let marks = seq!['/', '?', '#', '@', ':', '[', ']'];
    assert(marks[0] == '/' && marks[1] == '?' && marks[2] == '#' && marks[3] == '@');
    assert(marks[4] == ':' && marks[5] == '[' && marks[6] == ']');
    lemma_lower_keeps(c, ':');
    assert forall|i: int| 0 <= i < marks.len() implies marks[i] != lower_char(c) by {
        assert(marks.contains(marks[i]));
        lemma_lower_keeps(c, marks[i]);
    }
}

/// The host in a text of a host, and of a port where there is one.
proof fn lemma_bare_host(host: Seq<char>, port: Seq<char>, text: Seq<char>)
    requires
        host.len() > 0,
        forall|i: int| 0 <= i < host.len() ==> is_host_char(#[trigger] host[i]),
        forall|i: int| 0 <= i < port.len() ==> is_digit(#[trigger] port[i]),
        text == host || text == host + seq![':'] + port,
    ensures
        trimmed(text) == text,
        stripped_end(stripped_start(text, '['), ']') == text,
        pieces(text, ':')[0] == host,
{
    assert(text[0] == host[0]);
    lemma_host_char(host[0]);
    lemma_host_char(host[host.len() - 1]);
    assert(host.last() == host[host.len() - 1]);
    if port.len() > 0 {
        assert(port.last() == port[port.len() - 1]);
    }
    assert(text.last() == host.last() || text.last() == ':' || text.last() == port.last());
    trimmed_of_tight(text);
    assert(!host.contains(':')) by {
        assert forall|i: int| 0 <= i < host.len() implies host[i] != ':' by {
            lemma_host_char(host[i]);
        }
    }
    lemma_index_of(host, ':');
    assert(pieces(host, ':') =~= seq![host]);
    if text != host {
        pieces_of_both(host, ':', port);
        assert(pieces(text, ':')[0] == host);
    }
}

/// Only the host decides whether a remote is a known one: not who asks for it,
/// the port, the path, or the case of the letters.
pub proof fn only_the_host_decides(
    user: Seq<char>,
    host: Seq<char>,
    port: Seq<char>,
    path: Seq<char>,
)
    requires
        forall|i: int| 0 <= i < user.len() ==> !seq!['/', '?', '#'].contains(#[trigger] user[i]),
        host.len() > 0,
        forall|i: int| 0 <= i < host.len() ==> is_host_char(#[trigger] host[i]),
        forall|i: int| 0 <= i < port.len() ==> is_digit(#[trigger] port[i]),
    ensures
        is_known_remote("https://"@ + user + "@"@ + host + ":"@ + port + "/"@ + path)
            == is_known_remote("https://"@ + ascii_lower(host) + "/"@),
        remote_host("https://"@ + user + "@"@ + host + ":"@ + port + "/"@ + path) == remote_host(
            "https://"@ + ascii_lower(host) + "/"@,
        ),
{
    reveal_strlit("@");
    reveal_strlit(":");
    let marks = seq!['/', '?', '#'];
    assert(marks[0] == '/' && marks[1] == '?' && marks[2] == '#');
    let place = host + seq![':'] + port;
    let authority = user + seq!['@'] + place;
    assert("https://"@ + user + "@"@ + host + ":"@ + port + "/"@ + path =~= "https://"@ + authority
        + "/"@ + path);
    assert forall|i: int| 0 <= i < place.len() implies place[i] != '@' && !marks.contains(
        #[trigger] place[i],
    ) by {
        if i < host.len() {
            lemma_host_char(host[i]);
        } else if i > host.len() {
            assert(place[i] == port[i - host.len() - 1]);
        }
    }
    assert forall|i: int| 0 <= i < authority.len() implies !marks.contains(
        #[trigger] authority[i],
    ) by {
        if i < user.len() {
            assert(authority[i] == user[i]);
        } else if i > user.len() {
            assert(authority[i] == place[i - user.len() - 1]);
        }
    }
    lemma_address(authority, path);
    lemma_after_last(user, '@', place);
    lemma_bare_host(host, port, place);

    let lower = ascii_lower(host);
    assert forall|i: int| 0 <= i < lower.len() implies is_host_char(#[trigger] lower[i])
        && lower[i] != '@' && !marks.contains(lower[i]) by {
        lemma_host_char(host[i]);
        lemma_host_char(lower[i]);
    }
    assert("https://"@ + lower + "/"@ =~= "https://"@ + lower + "/"@ + Seq::<char>::empty());
    lemma_address(lower, seq![]);
    lemma_without_last(lower, '@');
    lemma_bare_host(lower, seq![], lower);
    lemma_lower_stripped(host);
}

/// A remote is known exactly where it stands on one of the two known hosts, in
/// whatever case; by its address, or in the short form.
pub proof fn two_hosts_are_known(user: Seq<char>, host: Seq<char>, path: Seq<char>)
    requires
        host.len() > 0,
        host.last() != '.',
        forall|i: int| 0 <= i < host.len() ==> is_host_char(#[trigger] host[i]),
        user.len() > 0,
        forall|i: int| 0 <= i < user.len() ==> is_host_char(#[trigger] user[i]),
        path.len() > 0,
        path[0] != '/',
        forall|i: int|
            0 <= i < path.len() ==> !is_space(#[trigger] path[i]) && path[i] != ':',
    ensures
        remote_host("https://"@ + host + "/"@ + path) == Some(ascii_lower(host)),
        remote_host(user + "@"@ + host + ":"@ + path) == Some(ascii_lower(host)),
        is_known_remote("https://"@ + host + "/"@ + path) <==> ascii_lower(host) == "github.com"@
            || ascii_lower(host) == "gitlab.com"@,
        is_known_remote(user + "@"@ + host + ":"@ + path) <==> ascii_lower(host) == "github.com"@
            || ascii_lower(host) == "gitlab.com"@,
{
    reveal_strlit("@");
    reveal_strlit(":");
    let marks = seq!['/', '?', '#'];
    assert(marks[0] == '/' && marks[1] == '?' && marks[2] == '#');
    assert forall|i: int| 0 <= i < host.len() implies host[i] != '@' && host[i] != ':' && host[i]
        != '/' && !marks.contains(#[trigger] host[i]) by {
        lemma_host_char(host[i]);
    }
    lemma_address(host, path);
    assert(!host.contains('@'));
    lemma_without_last(host, '@');
    lemma_bare_host(host, seq![], host);
    assert(stripped_end(host, '.') == host);
    assert(bare_host(host) == Some(ascii_lower(host)));

    let place = user + seq!['@'] + host;
    let remote = user + "@"@ + host + ":"@ + path;
    assert(remote =~= place + seq![':'] + path);
    assert(remote[0] == user[0]);
    assert(remote.last() == path.last());
    assert(path.last() == path[path.len() - 1]);
    lemma_host_char(user[0]);
    trimmed_of_tight(remote);
    assert forall|i: int| 0 <= i < place.len() implies place[i] != ':' && place[i] != '/' by {
        if i < user.len() {
            lemma_host_char(user[i]);
        } else if i > user.len() {
            assert(place[i] == host[i - user.len() - 1]);
        }
    }
    assert forall|k: int| 0 <= k < remote.len() implies !(#[trigger] "://"@.is_prefix_of(
        remote.skip(k),
    )) by {
        reveal_strlit("://");
        if "://"@.is_prefix_of(remote.skip(k)) {
            let start = remote.skip(k).subrange(0, 3);
            assert(start == "://"@);
            assert(start[0] == remote[k] && start[1] == remote[k + 1] && start[2] == remote[k + 2]);
            if k < place.len() {
                assert(remote[k] == place[k]);
            } else if k > place.len() {
                assert(remote[k] == path[k - place.len() - 1]);
            } else {
                assert(remote[k + 1] == path[0]);
            }
        }
    }
    lemma_split_once_by(remote, "://"@, remote.len() as int);
    assert(split_once_by(remote.skip(remote.len() as int), "://"@) is None) by {
        reveal_strlit("://");
    }
    crate::text::lemma_index_of_is(remote, ':', place.len() as int);
    assert(remote.take(place.len() as int) =~= place);
    assert(!place.contains('/'));
    lemma_after_last(user, '@', host);
}

} // verus!
