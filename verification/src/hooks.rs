//! The addresses a seat reports to, and the seat that a request names.

use vstd::prelude::*;
use vstd::string::*;

use crate::percent::{
    decoded, encoded, is_segment_char, law_a_segment_holds_only_segment_characters,
    law_decoding_undoes_encoding, percent_decode, percent_encode,
};
use crate::text::{
    before, chars_of, decimal, decimal_text, digit, find_from, first_at, lemma_first_at_is, starts,
    starts_at, text_between,
};

verus! {

/// The environment variable a launched CLI carries the room token in.
pub const ROOM_TOKEN_ENV: &'static str = "PULLCEPT_ROOM_TOKEN";

/// The path the app answers a session's usage-limit signal on.
pub const LIMITED_HOOK_PATH: &'static str = "/hooks/limited";

/// The path the app answers a session's status-line report on.
pub const STATUS_HOOK_PATH: &'static str = "/hooks/status";

/// What a seat's address holds behind the port: the path, and the two halves of the seat
/// as segments of their own.
pub open spec fn seat_target(path: Seq<char>, room: Seq<char>, account: Seq<char>) -> Seq<char> {
    path + "/"@ + encoded(room) + "/"@ + encoded(account)
}

/// The address of a seat under a path, on this machine's own port.
pub open spec fn seat_address(
    port: u16,
    path: Seq<char>,
    room: Seq<char>,
    account: Seq<char>,
) -> Seq<char> {
    "http://127.0.0.1:"@ + decimal(port as nat) + seat_target(path, room, account)
}

/// The two halves that a path names behind its hook's own path: exactly two segments,
/// neither empty once it is decoded.
pub open spec fn two_segments(rest: Seq<char>) -> Option<(Seq<char>, Seq<char>)> {
    let cut = first_at(rest, '/');
    let account = rest.skip(cut + 1);
    if cut >= rest.len() || account.contains('/') {
        None
    } else {
        match (decoded(rest.take(cut)), decoded(account)) {
            (Some(room), Some(account)) => if room.len() > 0 && account.len() > 0 {
                Some((room, account))
            } else {
                None
            },
            _ => None,
        }
    }
}

/// The seat that a request target names under a path, room first: a query does not
/// count, and the path is followed by a slash and the two halves.
pub open spec fn seat_named(path: Seq<char>, target: Seq<char>) -> Option<(Seq<char>, Seq<char>)> {
    let plain = before(target, '?');
    if starts(plain, path + seq!['/']) {
        two_segments(plain.skip(path.len() as int + 1))
    } else {
        None
    }
}

/// The views of a seat's two halves.
pub open spec fn seat_view(seat: Option<(String, String)>) -> Option<(Seq<char>, Seq<char>)> {
    match seat {
        Some((room, account)) => Some((room@, account@)),
        None => None,
    }
}

/// Where one seat posts to, under one of the paths above.
pub fn seat_url(port: u16, path: &str, room_id: &str, account_id: &str) -> (url: String)
    ensures
        url@ == seat_address(port, path@, room_id@, account_id@),
{
    let mut url: String = "http://127.0.0.1:".to_owned();
    url.append(decimal_text(port as u64).as_str());
    url.append(path);
    url.append("/");
    url.append(percent_encode(room_id).as_str());
    url.append("/");
    url.append(percent_encode(account_id).as_str());
    proof {
        assert(url@ =~= seat_address(port, path@, room_id@, account_id@));
    }
    url
}

/// The seat a request target names, as room id and account id, or `None` when it is not
/// under `path` or does not name both halves.
pub fn parse_seat_target(path: &str, target: &str) -> (seat: Option<(String, String)>)
    ensures
        seat_view(seat) == seat_named(path@, target@),
{
    let chars = chars_of(target);
    let end = find_from(&chars, 0, '?');
    let plain = chars_of(text_between(&chars, 0, end).as_str());
    let mut prefix = chars_of(path);
    let base: usize = prefix.len();
    prefix.push('/');
    proof {
        assert(chars@.skip(0) =~= chars@);
        assert(plain@ =~= before(target@, '?'));
        assert(plain@.skip(0) =~= plain@);
        assert(prefix@ =~= path@ + seq!['/']);
    }
    if !starts_at(&plain, 0, &prefix) {
        return None;
    }
    let from: usize = prefix.len();
    let cut = find_from(&plain, from, '/');
    let ghost rest = plain@.skip(from as int);
    proof {
        assert(plain@.skip(path@.len() as int + 1) =~= rest);
    }
    if cut >= plain.len() {
        return None;
    }
    let room = text_between(&plain, from, cut);
    let account = text_between(&plain, cut + 1, plain.len());
    let again = find_from(&plain, cut + 1, '/');
    proof {
        assert(rest.take(cut - from) =~= room@);
        assert(rest.skip(cut - from + 1) =~= account@);
        if again < plain@.len() {
            assert(account@[again - cut - 1] == '/');
        } else if account@.contains('/') {
            let i = choose|i: int| 0 <= i < account@.len() && account@[i] == '/';
            assert(plain@[cut + 1 + i] == '/');
        }
    }
    if again < plain.len() {
        return None;
    }
    match (percent_decode(room.as_str()), percent_decode(account.as_str())) {
        (Some(room), Some(account)) => {
            if room.as_str().unicode_len() > 0 && account.as_str().unicode_len() > 0 {
                Some((room, account))
            } else {
                None
            }
        },
        _ => None,
    }
}

/// Where one seat's usage-limit hook posts to.
pub fn limited_hook_url(port: u16, room_id: &str, account_id: &str) -> (url: String)
    ensures
        url@ == seat_address(port, LIMITED_HOOK_PATH@, room_id@, account_id@),
{
    seat_url(port, LIMITED_HOOK_PATH, room_id, account_id)
}

/// The seat a usage-limit request names, or `None` when it names no seat.
pub fn parse_limited_hook_target(target: &str) -> (seat: Option<(String, String)>)
    ensures
        seat_view(seat) == seat_named(LIMITED_HOOK_PATH@, target@),
{
    parse_seat_target(LIMITED_HOOK_PATH, target)
}

/// Where one seat's status line posts to.
pub fn status_hook_url(port: u16, room_id: &str, account_id: &str) -> (url: String)
    ensures
        url@ == seat_address(port, STATUS_HOOK_PATH@, room_id@, account_id@),
{
    seat_url(port, STATUS_HOOK_PATH, room_id, account_id)
}

/// The seat a status-line request names, or `None` when it names no seat.
pub fn parse_status_hook_target(target: &str) -> (seat: Option<(String, String)>)
    ensures
        seat_view(seat) == seat_named(STATUS_HOOK_PATH@, target@),
{
    parse_seat_target(STATUS_HOOK_PATH, target)
}

// ---------------------------------------------------------------------------
// Laws
// ---------------------------------------------------------------------------

/// The target of a seat's own address names that seat, with a query behind it or
/// without, under a path that holds no question mark.
pub proof fn law_a_seat_is_named_by_its_address(
    path: Seq<char>,
    room: Seq<char>,
    account: Seq<char>,
    query: Seq<char>,
)
    requires
        !path.contains('?'),
        room.len() > 0,
        account.len() > 0,
        query.len() == 0 || query[0] == '?',
    ensures
        seat_named(path, seat_target(path, room, account) + query) == Some((room, account)),
{
    reveal_strlit("/");
    let target = seat_target(path, room, account);
    let r = encoded(room);
    let a = encoded(account);
    law_a_segment_holds_only_segment_characters(room);
    law_a_segment_holds_only_segment_characters(account);
    law_decoding_undoes_encoding(room);
    law_decoding_undoes_encoding(account);
    assert forall|i: int| 0 <= i < target.len() implies (target + query)[i] != '?' by {
        let n = path.len();
        if i < n {
            assert(target[i] == path[i]);
        } else if i == n {
            assert(target[i] == '/');
        } else if i < n + 1 + r.len() {
            assert(target[i] == r[i - n - 1]);
        } else if i == n + 1 + r.len() {
            assert(target[i] == '/');
        } else {
            assert(target[i] == a[i - n - 2 - r.len()]);
        }
    }
    lemma_first_at_is(target + query, '?', target.len() as int);
    assert(before(target + query, '?') =~= target);
    let head = path + seq!['/'];
    assert(target.take(head.len() as int) =~= head);
    let rest = target.skip(path.len() as int + 1);
    assert(rest =~= r + seq!['/'] + a);
    assert forall|i: int| 0 <= i < r.len() implies rest[i] != '/' by {
        assert(rest[i] == r[i]);
    }
    lemma_first_at_is(rest, '/', r.len() as int);
    assert(rest.take(r.len() as int) =~= r);
    assert(rest.skip(r.len() as int + 1) =~= a);
    assert(!a.contains('/'));
}

/// Reading a seat's usage-limit address gives back the seat, and so does reading its
/// status address.
pub proof fn law_both_hooks_name_their_seat(room: Seq<char>, account: Seq<char>)
    requires
        room.len() > 0,
        account.len() > 0,
    ensures
        seat_named(LIMITED_HOOK_PATH@, seat_target(LIMITED_HOOK_PATH@, room, account)) == Some(
            (room, account),
        ),
        seat_named(STATUS_HOOK_PATH@, seat_target(STATUS_HOOK_PATH@, room, account)) == Some(
            (room, account),
        ),
{
    lemma_paths();
    let none = Seq::<char>::empty();
    law_a_seat_is_named_by_its_address(LIMITED_HOOK_PATH@, room, account, none);
    law_a_seat_is_named_by_its_address(STATUS_HOOK_PATH@, room, account, none);
    assert(seat_target(LIMITED_HOOK_PATH@, room, account) + none =~= seat_target(
        LIMITED_HOOK_PATH@,
        room,
        account,
    ));
    assert(seat_target(STATUS_HOOK_PATH@, room, account) + none =~= seat_target(
        STATUS_HOOK_PATH@,
        room,
        account,
    ));
}

proof fn lemma_paths()
    ensures
        !LIMITED_HOOK_PATH@.contains('?'),
        !STATUS_HOOK_PATH@.contains('?'),
        LIMITED_HOOK_PATH@.len() == 14,
        STATUS_HOOK_PATH@.len() == 13,
        LIMITED_HOOK_PATH@[7] == 'l',
        STATUS_HOOK_PATH@[7] == 's',
        forall|i: int|
            0 <= i < 14 ==> is_address_char(#[trigger] LIMITED_HOOK_PATH@[i]),
        forall|i: int|
            0 <= i < 13 ==> is_address_char(#[trigger] STATUS_HOOK_PATH@[i]),
{
    reveal_strlit("/hooks/limited");
    reveal_strlit("/hooks/status");
}

/// No request target names a seat under both paths.
pub proof fn law_the_two_paths_do_not_answer_for_each_other(target: Seq<char>)
    ensures
        seat_named(LIMITED_HOOK_PATH@, target) is None || seat_named(STATUS_HOOK_PATH@, target) is None,
{
    lemma_paths();
    let plain = before(target, '?');
    let limited = LIMITED_HOOK_PATH@ + seq!['/'];
    let status = STATUS_HOOK_PATH@ + seq!['/'];
    if starts(plain, limited) && starts(plain, status) {
        assert(plain.take(limited.len() as int)[7] == 'l');
        assert(plain.take(status.len() as int)[7] == 's');
    }
}

/// The characters an address is written in: letters, digits, and none that a Windows
/// shell acts on but the percent sign of the coding itself.
pub open spec fn is_address_char(c: char) -> bool {
    is_segment_char(c) || c == '/' || c == ':'
}

/// Whether a text is written in those characters alone.
pub open spec fn is_address(text: Seq<char>) -> bool {
    forall|i: int| 0 <= i < text.len() ==> is_address_char(#[trigger] text[i])
}

proof fn lemma_decimal_digits(n: nat)
    ensures
        forall|i: int| 0 <= i < decimal(n).len() ==> '0' <= #[trigger] decimal(n)[i] <= '9',
    decreases n,
{
    if n >= 10 {
        lemma_decimal_digits(n / 10);
        assert('0' <= digit(n % 10) <= '9');
        assert forall|i: int| 0 <= i < decimal(n).len() implies '0' <= #[trigger] decimal(n)[i]
            <= '9' by {
            if i < decimal(n / 10).len() {
                assert(decimal(n)[i] == decimal(n / 10)[i]);
            }
        }
    } else {
        assert('0' <= digit(n) <= '9');
    }
}

/// A hook's address holds letters, digits and `/ : . - _ ~ %` alone, whatever the ids
/// hold.
pub proof fn law_an_address_holds_nothing_a_shell_acts_on(
    port: u16,
    room: Seq<char>,
    account: Seq<char>,
)
    ensures
        is_address(seat_address(port, LIMITED_HOOK_PATH@, room, account)),
        is_address(seat_address(port, STATUS_HOOK_PATH@, room, account)),
{
    lemma_paths();
    let limited = seat_address(port, LIMITED_HOOK_PATH@, room, account);
    let status = seat_address(port, STATUS_HOOK_PATH@, room, account);
    assert forall|i: int| 0 <= i < limited.len() implies is_address_char(#[trigger] limited[i]) by {
        lemma_address_chars(port, LIMITED_HOOK_PATH@, room, account, i);
    }
    assert forall|i: int| 0 <= i < status.len() implies is_address_char(#[trigger] status[i]) by {
        lemma_address_chars(port, STATUS_HOOK_PATH@, room, account, i);
    }
}

proof fn lemma_address_chars(
    port: u16,
    path: Seq<char>,
    room: Seq<char>,
    account: Seq<char>,
    at: int,
)
    requires
        forall|i: int| 0 <= i < path.len() ==> is_address_char(#[trigger] path[i]),
        0 <= at < seat_address(port, path, room, account).len(),
    ensures
        is_address_char(seat_address(port, path, room, account)[at]),
{
    reveal_strlit("http://127.0.0.1:");
    reveal_strlit("/");
    lemma_decimal_digits(port as nat);
    law_a_segment_holds_only_segment_characters(room);
    law_a_segment_holds_only_segment_characters(account);
    let head = "http://127.0.0.1:"@;
    let digits = decimal(port as nat);
    let r = encoded(room);
    let a = encoded(account);
    let address = seat_address(port, path, room, account);
    let n1 = head.len();
    let n2 = n1 + digits.len();
    let n3 = n2 + path.len();
    let n4 = n3 + 1 + r.len();
    if at < n1 {
        assert(address[at] == head[at]);
    } else if at < n2 {
        assert(address[at] == digits[at - n1]);
    } else if at < n3 {
        assert(address[at] == path[at - n2]);
    } else if at == n3 {
        assert(address[at] == '/');
    } else if at < n4 {
        assert(address[at] == r[at - n3 - 1]);
    } else if at == n4 {
        assert(address[at] == '/');
    } else {
        assert(address[at] == a[at - n4 - 1]);
    }
}

/// Where a seat's hooks post to: this machine, the room's port, the hook's own path, and the
/// two halves of the seat, each written as one segment. A request to such a target names the
/// seat.
pub proof fn law_where_the_hooks_of_a_seat_are(
    port: u16,
    room_id: &str,
    account_id: &str,
    limited: String,
    status: String,
)
    requires
        limited_hook_url.ensures((port, room_id, account_id), limited),
        status_hook_url.ensures((port, room_id, account_id), status),
    ensures
        limited@ == "http://127.0.0.1:"@ + decimal(port as nat) + "/hooks/limited/"@ + encoded(
            room_id@,
        ) + "/"@ + encoded(account_id@),
        status@ == "http://127.0.0.1:"@ + decimal(port as nat) + "/hooks/status/"@ + encoded(
            room_id@,
        ) + "/"@ + encoded(account_id@),
{
    reveal_strlit("/");
    reveal_strlit("/hooks/limited");
    reveal_strlit("/hooks/limited/");
    reveal_strlit("/hooks/status");
    reveal_strlit("/hooks/status/");
    assert(limited@ =~= "http://127.0.0.1:"@ + decimal(port as nat) + "/hooks/limited/"@ + encoded(
        room_id@,
    ) + "/"@ + encoded(account_id@));
    assert(status@ =~= "http://127.0.0.1:"@ + decimal(port as nat) + "/hooks/status/"@ + encoded(
        room_id@,
    ) + "/"@ + encoded(account_id@));
}

/// A target names a seat exactly where its path goes on, behind the hook's own, with two
/// segments that can be read and are not empty, whatever its query is.
pub proof fn law_which_targets_name_a_seat(
    target: &str,
    limited: Option<(String, String)>,
    status: Option<(String, String)>,
    room: Seq<char>,
    account: Seq<char>,
    more: Seq<char>,
    query: Seq<char>,
)
    requires
        !more.contains('?'),
        parse_limited_hook_target.ensures((target,), limited),
        parse_status_hook_target.ensures((target,), status),
        !room.contains('/') && !room.contains('?'),
        !account.contains('/') && !account.contains('?'),
        query.len() == 0 || query[0] == '?',
    ensures
        ({
            let named = match (decoded(room), decoded(account)) {
                (Some(room), Some(account)) => if room.len() > 0 && account.len() > 0 {
                    Some((room, account))
                } else {
                    None
                },
                _ => None,
            };
            &&& target@ == "/hooks/limited/"@ + room + "/"@ + account + query ==> seat_view(limited)
                == named && status is None
            &&& target@ == "/hooks/status/"@ + room + "/"@ + account + query ==> seat_view(status)
                == named && limited is None
            &&& target@ == "/hooks/limited/"@ + room + "/"@ + account + "/"@ + more + query
                ==> limited is None && status is None
            &&& target@ == "/hooks/status/"@ + room + "/"@ + account + "/"@ + more + query
                ==> limited is None && status is None
            &&& target@ == "/hooks/limited/"@ + room + query ==> limited is None && status is None
            &&& target@ == "/hooks/status/"@ + room + query ==> limited is None && status is None
        }),
{
    reveal_strlit("/");
    reveal_strlit("/hooks/limited");
    reveal_strlit("/hooks/limited/");
    reveal_strlit("/hooks/status");
    reveal_strlit("/hooks/status/");
    lemma_paths();
    assert(LIMITED_HOOK_PATH@ + "/"@ =~= "/hooks/limited/"@);
    assert(STATUS_HOOK_PATH@ + "/"@ =~= "/hooks/status/"@);
    if target@ == "/hooks/limited/"@ + room + "/"@ + account + query {
        lemma_two_segments(LIMITED_HOOK_PATH@, room, account, query);
        lemma_not_under(LIMITED_HOOK_PATH@, STATUS_HOOK_PATH@, target@);
    }
    if target@ == "/hooks/status/"@ + room + "/"@ + account + query {
        lemma_two_segments(STATUS_HOOK_PATH@, room, account, query);
        lemma_not_under(STATUS_HOOK_PATH@, LIMITED_HOOK_PATH@, target@);
    }
    if target@ == "/hooks/limited/"@ + room + "/"@ + account + "/"@ + more + query {
        lemma_three_segments(LIMITED_HOOK_PATH@, room, account, more, query);
        lemma_not_under(LIMITED_HOOK_PATH@, STATUS_HOOK_PATH@, target@);
    }
    if target@ == "/hooks/status/"@ + room + "/"@ + account + "/"@ + more + query {
        lemma_three_segments(STATUS_HOOK_PATH@, room, account, more, query);
        lemma_not_under(STATUS_HOOK_PATH@, LIMITED_HOOK_PATH@, target@);
    }
    if target@ == "/hooks/limited/"@ + room + query {
        lemma_one_segment(LIMITED_HOOK_PATH@, room, query);
        lemma_not_under(LIMITED_HOOK_PATH@, STATUS_HOOK_PATH@, target@);
    }
    if target@ == "/hooks/status/"@ + room + query {
        lemma_one_segment(STATUS_HOOK_PATH@, room, query);
        lemma_not_under(STATUS_HOOK_PATH@, LIMITED_HOOK_PATH@, target@);
    }
}

/// A target that begins with one path is not under another that differs at some place.
proof fn lemma_not_under(path: Seq<char>, other: Seq<char>, target: Seq<char>)
    requires
        path.len() > 7,
        other.len() > 7,
        path[7] != other[7],
        target.len() >= path.len(),
        forall|i: int| 0 <= i < path.len() ==> target[i] == path[i],
    ensures
        seat_named(other, target) is None,
{
    let plain = before(target, '?');
    let head = other + seq!['/'];
    crate::text::lemma_first_at(target, '?');
    if starts(plain, head) {
        assert(plain.take(head.len() as int)[7] == other[7]);
        assert(plain[7] == target[7]);
    }
}

proof fn lemma_plain_part(path: Seq<char>, rest: Seq<char>, query: Seq<char>)
    requires
        !path.contains('?'),
        !rest.contains('?'),
        query.len() == 0 || query[0] == '?',
    ensures
        seat_named(path, path + "/"@ + rest + query) == two_segments(rest),
{
    reveal_strlit("/");
    let target = path + "/"@ + rest + query;
    let plain = path + "/"@ + rest;
    assert forall|i: int| 0 <= i < plain.len() implies target[i] != '?' by {
        assert(target[i] == plain[i]);
        if i < path.len() {
            assert(path.contains(path[i]));
        } else if i > path.len() {
            assert(plain[i] == rest[i - path.len() - 1]);
            assert(rest.contains(rest[i - path.len() - 1]));
        }
    }
    if query.len() > 0 {
        assert(target[plain.len() as int] == '?');
    }
    lemma_first_at_is(target, '?', plain.len() as int);
    assert(before(target, '?') =~= plain);
    let head = path + seq!['/'];
    assert(plain.take(head.len() as int) =~= head);
    assert(plain.skip(path.len() as int + 1) =~= rest);
}

proof fn lemma_two_segments(path: Seq<char>, room: Seq<char>, account: Seq<char>, query: Seq<char>)
    requires
        !path.contains('?'),
        !room.contains('/') && !room.contains('?'),
        !account.contains('/') && !account.contains('?'),
        query.len() == 0 || query[0] == '?',
    ensures
        seat_named(path, path + "/"@ + room + "/"@ + account + query) == match (
            decoded(room),
            decoded(account),
        ) {
            (Some(room), Some(account)) => if room.len() > 0 && account.len() > 0 {
                Some((room, account))
            } else {
                None
            },
            _ => None,
        },
{
    reveal_strlit("/");
    let rest = room + "/"@ + account;
    assert(path + "/"@ + rest + query =~= path + "/"@ + room + "/"@ + account + query);
    if rest.contains('?') {
        let i = rest.index_of('?');
        if i < room.len() {
            assert(room[i] == '?');
        } else if i > room.len() {
            assert(account[i - room.len() - 1] == '?');
        }
    }
    lemma_plain_part(path, rest, query);
    assert forall|i: int| 0 <= i < room.len() implies rest[i] != '/' by {
        assert(rest[i] == room[i]);
        assert(room.contains(room[i]));
    }
    lemma_first_at_is(rest, '/', room.len() as int);
    assert(rest.take(room.len() as int) =~= room);
    assert(rest.skip(room.len() as int + 1) =~= account);
}

proof fn lemma_three_segments(
    path: Seq<char>,
    room: Seq<char>,
    account: Seq<char>,
    more: Seq<char>,
    query: Seq<char>,
)
    requires
        !path.contains('?'),
        !room.contains('/') && !room.contains('?'),
        !account.contains('/') && !account.contains('?'),
        !more.contains('?'),
        query.len() == 0 || query[0] == '?',
    ensures
        seat_named(path, path + "/"@ + room + "/"@ + account + "/"@ + more + query) is None,
{
    reveal_strlit("/");
    let behind = account + "/"@ + more;
    let rest = room + "/"@ + behind;
    assert(path + "/"@ + rest + query =~= path + "/"@ + room + "/"@ + account + "/"@ + more + query);
    if rest.contains('?') {
        let i = rest.index_of('?');
        assert(rest[i] == '?');
        if i < room.len() {
            assert(room[i] == '?');
        } else if i > room.len() {
            let k = i - room.len() - 1;
            assert(behind[k] == '?');
            if k < account.len() {
                assert(account[k] == '?');
            } else if k > account.len() {
                assert(more[k - account.len() - 1] == '?');
            }
        }
    }
    lemma_plain_part(path, rest, query);
    assert forall|i: int| 0 <= i < room.len() implies rest[i] != '/' by {
        assert(rest[i] == room[i]);
        assert(room.contains(room[i]));
    }
    lemma_first_at_is(rest, '/', room.len() as int);
    assert(rest.skip(room.len() as int + 1) =~= behind);
    assert(behind[account.len() as int] == '/');
}

proof fn lemma_one_segment(path: Seq<char>, room: Seq<char>, query: Seq<char>)
    requires
        !path.contains('?'),
        !room.contains('/') && !room.contains('?'),
        query.len() == 0 || query[0] == '?',
    ensures
        seat_named(path, path + "/"@ + room + query) is None,
{
    lemma_plain_part(path, room, query);
    assert forall|i: int| 0 <= i < room.len() implies room[i] != '/' by {
        assert(room.contains(room[i]));
    }
    lemma_first_at_is(room, '/', room.len() as int);
}

} // verus!
