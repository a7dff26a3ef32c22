//! Registering the room sidecar in a project's `.mcp.json`.
//!
//! The file is the user's own. One entry of it is this launch's, entries of earlier runs
//! are swept because their address is dead, and everything else stays as it is.

use vstd::prelude::*;
use vstd::string::*;

use crate::frames::{says, says_if_any};
use crate::json::{
    alike, at, entries_of, entry, field, json_of, keys, lemma_alike_parts, lemma_nests_deeper,
    lemma_wordy_alike, lemma_wordy_nests, look, nests_within, new_object, no_entries, object_value,
    open, parse, parsed, pretty, pretty_text, put_text, put_value, read_depth, readable,
    reads_alike, take, text_in, text_list, texts_value, wordy, Glimpse, Json, Node, Reading,
};
use crate::server_name::{server_name, server_name_for, SERVER_PREFIX};
use crate::text::{ascending, same_text, starts, starts_with, text_less, texts};
use crate::text_map::lemma_ascending_unique;

verus! {

/// What a session launch needs to know about the room it is joining.
#[derive(Debug, Clone)]
pub struct RoomRegistration<'a> {
    /// Address of the room socket.
    pub room_url: &'a str,
    /// Bearer token the sidecar must present.
    pub token: &'a str,
    /// Id of the account being launched; half of the registration key.
    pub account_id: &'a str,
    /// Id of the room being joined; the other half of the key.
    pub room_id: &'a str,
    /// Display name this session speaks under.
    pub agent_name: &'a str,
    /// Hue this session declared, in oklch degrees, or `None` when it declared none.
    pub agent_hue: Option<&'a serde_json::Number>,
    /// Whether this session is being seated in a topic that already holds posts it does
    /// not have.
    pub unseen_history: bool,
    /// Absolute path of the sidecar entry point.
    pub sidecar_entry: &'a str,
    /// Absolute path of the runner that executes the entry point.
    pub sidecar_runner: &'a str,
}

// ---------------------------------------------------------------------------
// One entry
// ---------------------------------------------------------------------------

/// A number, told by its JSON text, written with one digit behind the point.
pub uninterp spec fn one_decimal(number: Seq<char>) -> Seq<char>;

/// `serde_json::Number::as_f64`, written with one digit behind the point: a function of
/// the number alone. How the digits are rounded is left unsaid.
#[verifier::external_body]
pub(crate) fn one_decimal_text(number: &serde_json::Number) -> (text: String)
    ensures
        text@ == one_decimal(crate::json::number_text(*number)),
{
    format!("{:.1}", number.as_f64().unwrap_or_default())
}

/// The environment that a sidecar is started in. The hue stands in it only where one was
/// declared, and the mark of unseen posts only where there are some.
pub open spec fn sidecar_env(room: RoomRegistration<'_>) -> Map<Seq<char>, Json> {
    let known = no_entries().insert("PULLCEPT_ROOM_URL"@, Json::Text(room.room_url@)).insert(
        "PULLCEPT_ROOM_TOKEN"@,
        Json::Text(room.token@),
    ).insert("PULLCEPT_AGENT_NAME"@, Json::Text(room.agent_name@)).insert(
        "PULLCEPT_ACCOUNT_ID"@,
        Json::Text(room.account_id@),
    ).insert("PULLCEPT_ROOM_ID"@, Json::Text(room.room_id@));
    let coloured = match room.agent_hue {
        Some(hue) => known.insert(
            "PULLCEPT_AGENT_HUE"@,
            Json::Text(one_decimal(crate::json::number_text(*hue))),
        ),
        None => known,
    };
    if room.unseen_history {
        coloured.insert("PULLCEPT_UNSEEN_HISTORY"@, Json::Text("1"@))
    } else {
        coloured
    }
}

/// The entry of one launch: the command that starts its sidecar, and the environment.
pub open spec fn sidecar_entry(room: RoomRegistration<'_>) -> Json {
    Json::Object(
        no_entries().insert("command"@, Json::Text("node"@)).insert(
            "args"@,
            text_list(seq![room.sidecar_runner@, room.sidecar_entry@]),
        ).insert("env"@, Json::Object(sidecar_env(room))),
    )
}

/// How the CLI should spawn the sidecar, as a command and its arguments: absolute paths,
/// and nothing to resolve.
pub fn spawn_form(runner: &str, entry: &str) -> (res: (&'static str, Vec<String>))
    ensures
        res.0@ == "node"@,
        texts(res.1@) == seq![runner@, entry@],
{
    let mut args: Vec<String> = Vec::new();
    args.push(runner.to_owned());
    args.push(entry.to_owned());
    proof {
        assert(texts(args@) =~= seq![runner@, entry@]);
    }
    ("node", args)
}

fn entry_value(room: &RoomRegistration<'_>) -> (value: serde_json::Value)
    ensures
        json_of(value) == sidecar_entry(*room),
{
    let (command, args) = spawn_form(room.sidecar_runner, room.sidecar_entry);
    let mut env = new_object();
    put_text(&mut env, "PULLCEPT_ROOM_URL", room.room_url);
    put_text(&mut env, "PULLCEPT_ROOM_TOKEN", room.token);
    put_text(&mut env, "PULLCEPT_AGENT_NAME", room.agent_name);
    put_text(&mut env, "PULLCEPT_ACCOUNT_ID", room.account_id);
    put_text(&mut env, "PULLCEPT_ROOM_ID", room.room_id);
    if let Some(hue) = room.agent_hue {
        put_text(&mut env, "PULLCEPT_AGENT_HUE", one_decimal_text(hue).as_str());
    }
    if room.unseen_history {
        put_text(&mut env, "PULLCEPT_UNSEEN_HISTORY", "1");
    }
    let mut server = new_object();
    put_text(&mut server, "command", command);
    put_value(&mut server, "args", texts_value(args.as_slice()));
    put_value(&mut server, "env", object_value(env));
    object_value(server)
}

// ---------------------------------------------------------------------------
// Which entries stay
// ---------------------------------------------------------------------------

/// The room address that an entry carries, where it carries one.
pub open spec fn entry_url(entry: Json) -> Option<Seq<char>> {
    match at(entry, "env"@) {
        Some(env) => match at(env, "PULLCEPT_ROOM_URL"@) {
            Some(Json::Text(url)) => Some(url),
            _ => None,
        },
        None => None,
    }
}

/// Whether an entry stays when a launch registers into a room's address: it is not under
/// the prefix, or it carries no address, or it carries this one.
pub open spec fn survives(name: Seq<char>, entry: Json, room_url: Seq<char>) -> bool {
    !starts(name, SERVER_PREFIX@) || entry_url(entry) is None || entry_url(entry) == Some(room_url)
}

/// Whether one entry survives a registration into `room_url`.
pub fn survives_registration(name: &str, entry: &serde_json::Value, room_url: &str) -> (res: bool)
    ensures
        res == survives(name@, json_of(*entry), room_url@),
{
    if !starts_with(name, SERVER_PREFIX) {
        return true;
    }
    match field(entry, "env") {
        Some(env) => match text_in(field(env, "PULLCEPT_ROOM_URL")) {
            Some(url) => same_text(url, room_url),
            None => true,
        },
        None => true,
    }
}

/// The entries that stay.
pub open spec fn surviving(servers: Map<Seq<char>, Json>, room_url: Seq<char>) -> Map<
    Seq<char>,
    Json,
> {
    servers.restrict(
        Set::new(
            |name: Seq<char>|
                servers.contains_key(name) && survives(name, servers[name], room_url),
        ),
    )
}

fn sweep(servers: &mut serde_json::Map<String, serde_json::Value>, room_url: &str)
    ensures
        entries_of(*final(servers)) == surviving(entries_of(*old(servers)), room_url@),
{
    let names = keys(servers);
    let ghost all = entries_of(*servers);
    let mut i: usize = 0;
    proof {
        assert(entries_of(*servers) =~= all);
    }
    while i < names.len()
        invariant
            i <= names@.len(),
            all == entries_of(*old(servers)),
            forall|name: Seq<char>|
                texts(names@).contains(name) <==> #[trigger] all.contains_key(name),
            ascending(texts(names@)),
            forall|name: Seq<char>| #[trigger]
                entries_of(*servers).contains_key(name) ==> all.contains_key(name)
                    && entries_of(*servers)[name] == all[name],
            forall|j: int|
                i <= j < names@.len() ==> entries_of(*servers).contains_key(
                    #[trigger] texts(names@)[j],
                ),
            forall|j: int|
                0 <= j < i ==> (entries_of(*servers).contains_key(#[trigger] texts(names@)[j])
                    <==> survives(texts(names@)[j], all[texts(names@)[j]], room_url@)),
        decreases names@.len() - i,
    {
        let name: &str = names[i].as_str();
        let ghost before = entries_of(*servers);
        proof {
            assert(texts(names@)[i as int] == name@);
            assert forall|j: int| 0 <= j < names@.len() && j != i implies #[trigger] texts(
                names@,
            )[j] != name@ by {
                crate::text::lemma_less_irreflexive(name@);
                if j < i {
                    assert(text_less(texts(names@)[j], texts(names@)[i as int]));
                } else {
                    assert(text_less(texts(names@)[i as int], texts(names@)[j]));
                }
            }
        }
        let stays = match entry(servers, name) {
            Some(value) => survives_registration(name, value, room_url),
            None => true,
        };
        if !stays {
            let _ = take(servers, name);
        }
        i = i + 1;
    }
    proof {
        let now = entries_of(*servers);
        assert forall|name: Seq<char>| #[trigger] now.contains_key(name) <==> surviving(
            all,
            room_url@,
        ).contains_key(name) by {
            if all.contains_key(name) {
                let j = texts(names@).index_of(name);
                assert(texts(names@)[j] == name);
            }
        }
        assert(now =~= surviving(all, room_url@));
    }
}

// ---------------------------------------------------------------------------
// The file
// ---------------------------------------------------------------------------

/// The complaint about a file that is no JSON.
pub open spec fn not_json(path: Seq<char>, why: Seq<char>) -> Seq<char> {
    path + " exists but is not valid JSON ("@ + why
        + "). Fix or move it before starting a session."@
}

/// The complaint about a file that is JSON but no object.
pub open spec fn not_object(path: Seq<char>) -> Seq<char> {
    path + " is not a JSON object."@
}

/// The complaint about a file whose servers are no object.
pub open spec fn not_servers(path: Seq<char>) -> Seq<char> {
    path + " has a non-object mcpServers."@
}

/// What comes of the file: what it says, or the complaint about it. No file is an empty
/// object.
pub open spec fn config_read(path: Seq<char>, file: Option<Seq<char>>) -> Reading {
    match file {
        None => Reading::Says(Json::Object(no_entries())),
        Some(text) => match parsed(text) {
            Reading::Fails(why) => Reading::Fails(not_json(path, why)),
            Reading::Says(json) => if json is Object {
                Reading::Says(json)
            } else {
                Reading::Fails(not_object(path))
            },
        },
    }
}

/// The file at `path`, parsed, or an empty object when there is none. A file that is no
/// JSON object is refused rather than written over.
pub fn read_config(path: &str, file: Option<&str>) -> (res: Result<serde_json::Value, String>)
    ensures
        match res {
            Ok(root) => config_read(path@, crate::text::opt_str(file)) == Reading::Says(
                json_of(root),
            ) && json_of(root) is Object && nests_within(json_of(root), read_depth()),
            Err(why) => config_read(path@, crate::text::opt_str(file)) == Reading::Fails(why@),
        },
{
    match file {
        None => {
            let root = object_value(new_object());
            proof {
                assert(nests_within(Json::Object(no_entries()), read_depth()));
            }
            Ok(root)
        },
        Some(text) => match parse(text) {
            Err(why) => {
                let mut message: String = path.to_owned();
                message.append(" exists but is not valid JSON (");
                message.append(why.as_str());
                message.append("). Fix or move it before starting a session.");
                Err(message)
            },
            Ok(root) => {
                if let Glimpse::Object(_) = look(&root) {
                    Ok(root)
                } else {
                    let mut message: String = path.to_owned();
                    message.append(" is not a JSON object.");
                    Err(message)
                }
            },
        },
    }
}

/// The servers that a file names: none where it has no such key or no object under it.
pub open spec fn servers_in(root: Json) -> Map<Seq<char>, Json> {
    match at(root, "mcpServers"@) {
        Some(Json::Object(servers)) => servers,
        _ => no_entries(),
    }
}

/// Whether an entry belongs to another session of this run, or to nobody known.
pub open spec fn is_other(
    servers: Map<Seq<char>, Json>,
    room_url: Seq<char>,
    own: Seq<char>,
    name: Seq<char>,
) -> bool {
    &&& servers.contains_key(name)
    &&& starts(name, SERVER_PREFIX@)
    &&& name != own
    &&& survives(name, servers[name], room_url)
}

/// The room registrations in a parsed file that a launch of `own_server_name` must not
/// start, as the registration into `room_url` will leave the file.
pub fn other_servers_in(root: &serde_json::Value, room_url: &str, own_server_name: &str) -> (res: Vec<
    String,
>)
    ensures
        ascending(texts(res@)),
        forall|name: Seq<char>|
            #![trigger texts(res@).contains(name)]
            texts(res@).contains(name) <==> is_other(
                servers_in(json_of(*root)),
                room_url@,
                own_server_name@,
                name,
            ),
{
    let mut res: Vec<String> = Vec::new();
    let ghost servers = servers_in(json_of(*root));
    if let Some(value) = field(root, "mcpServers") {
        if let Glimpse::Object(object) = look(value) {
            let names = keys(object);
            let mut i: usize = 0;
            while i < names.len()
                invariant
                    i <= names@.len(),
                    servers == entries_of(*object),
                    ascending(texts(names@)),
                    forall|name: Seq<char>|
                        texts(names@).contains(name) <==> #[trigger] servers.contains_key(name),
                    ascending(texts(res@)),
                    res@.len() > 0 ==> i > 0 && (texts(res@).last() == texts(names@)[i - 1]
                        || text_less(texts(res@).last(), texts(names@)[i - 1])),
                    forall|name: Seq<char>|
                        #![trigger texts(res@).contains(name)]
                        texts(res@).contains(name) <==> exists|j: int|
                            0 <= j < i && #[trigger] texts(names@)[j] == name && is_other(
                                servers,
                                room_url@,
                                own_server_name@,
                                name,
                            ),
                decreases names@.len() - i,
            {
                let name: &str = names[i].as_str();
                let ghost list = texts(names@);
                let ghost kept = texts(res@);
                proof {
                    assert(list[i as int] == name@);
                    assert(list.contains(name@));
                    if kept.len() > 0 {
                        assert(text_less(list[i - 1], list[i as int]));
                        if kept.last() != list[i - 1] {
                            crate::text::lemma_less_transitive(
                                kept.last(),
                                list[i - 1],
                                list[i as int],
                            );
                        }
                    }
                }
                let survives = match entry(object, name) {
                    Some(value) => survives_registration(name, value, room_url),
                    None => false,
                };
                if starts_with(name, SERVER_PREFIX) && !same_text(name, own_server_name)
                    && survives {
                    res.push(names[i].clone());
                    proof {
                        let now = texts(res@);
                        assert(now =~= kept.push(name@));
                        assert forall|a: int, b: int| 0 <= a < b < now.len() implies text_less(
                            #[trigger] now[a],
                            #[trigger] now[b],
                        ) by {
                            if b == kept.len() {
                                if a < kept.len() - 1 {
                                    assert(text_less(kept[a], kept[kept.len() - 1]));
                                    crate::text::lemma_less_transitive(
                                        kept[a],
                                        kept.last(),
                                        name@,
                                    );
                                }
                            } else {
                                assert(text_less(kept[a], kept[b]));
                            }
                        }
                        assert forall|other: Seq<char>| #[trigger] now.contains(other) <==> exists|
                            j: int,
                        |
                            0 <= j < i + 1 && #[trigger] list[j] == other && is_other(
                                servers,
                                room_url@,
                                own_server_name@,
                                other,
                            ) by {
                            if now.contains(other) {
                                if other == name@ {
                                    assert(list[i as int] == other);
                                } else {
                                    let k = now.index_of(other);
                                    assert(kept[k] == other);
                                    assert(kept.contains(other));
                                }
                            }
                            if exists|j: int|
                                0 <= j < i + 1 && #[trigger] list[j] == other && is_other(
                                    servers,
                                    room_url@,
                                    own_server_name@,
                                    other,
                                ) {
                                if other == name@ {
                                    assert(now[kept.len() as int] == other);
                                } else {
                                    assert(kept.contains(other));
                                    let k = kept.index_of(other);
                                    assert(now[k] == other);
                                }
                            }
                        }
                    }
                } else {
                    proof {
                        assert forall|other: Seq<char>| #[trigger] kept.contains(other) <==> exists|
                            j: int,
                        |
                            0 <= j < i + 1 && #[trigger] list[j] == other && is_other(
                                servers,
                                room_url@,
                                own_server_name@,
                                other,
                            ) by {
                            assert(!is_other(servers, room_url@, own_server_name@, name@));
                        }
                    }
                }
                i = i + 1;
            }
            proof {
                assert forall|name: Seq<char>| #[trigger] texts(res@).contains(name) <==> is_other(
                    servers,
                    room_url@,
                    own_server_name@,
                    name,
                ) by {
                    if is_other(servers, room_url@, own_server_name@, name) {
                        let j = texts(names@).index_of(name);
                        assert(texts(names@)[j] == name);
                    }
                }
            }
        }
    }
    proof {
        if res@.len() == 0 {
            assert(texts(res@) =~= Seq::<Seq<char>>::empty());
        }
    }
    res
}

/// The room registrations in the file at `path` that a launch of `own_server_name` must
/// not start, as the registration into `room_url` will leave the file.
pub fn other_room_servers(
    path: &str,
    file: Option<&str>,
    room_url: &str,
    own_server_name: &str,
) -> (res: Result<Vec<String>, String>)
    ensures
        match (res, config_read(path@, crate::text::opt_str(file))) {
            (Ok(names), Reading::Says(root)) => {
                &&& ascending(texts(names@))
                &&& forall|name: Seq<char>|
                    #![trigger texts(names@).contains(name)]
                    texts(names@).contains(name) <==> is_other(
                        servers_in(root),
                        room_url@,
                        own_server_name@,
                        name,
                    )
            },
            (Err(why), Reading::Fails(complaint)) => why@ == complaint,
            _ => false,
        },
        file is None ==> res is Ok && res->Ok_0@.len() == 0,
{
    match read_config(path, file) {
        Ok(root) => {
            let names = other_servers_in(&root, room_url, own_server_name);
            proof {
                if file is None && names@.len() > 0 {
                    assert(texts(names@).contains(texts(names@)[0]));
                }
            }
            Ok(names)
        },
        Err(why) => Err(why),
    }
}

/// Whether the servers of a file can be extended: there are none, or they are an object.
pub open spec fn has_room_for_servers(root: Json) -> bool {
    match at(root, "mcpServers"@) {
        Some(servers) => servers is Object,
        None => true,
    }
}

/// The servers of a file once a launch is registered.
pub open spec fn servers_with(servers: Map<Seq<char>, Json>, room: RoomRegistration<'_>) -> Map<
    Seq<char>,
    Json,
> {
    surviving(servers, room.room_url@).insert(
        server_name(room.account_id@, room.room_id@),
        sidecar_entry(room),
    )
}

/// The file once a launch is registered: its servers changed, and nothing else of it.
pub open spec fn registered(root: Json, room: RoomRegistration<'_>) -> Json
    recommends
        root is Object,
{
    Json::Object(
        root->Object_0.insert("mcpServers"@, Json::Object(servers_with(servers_in(root), room))),
    )
}

/// Merge the room server into a parsed file, keeping whatever else is there.
pub fn register_in(path: &str, root: serde_json::Value, room: &RoomRegistration<'_>) -> (res: Result<
    serde_json::Value,
    String,
>)
    requires
        json_of(root) is Object,
    ensures
        match res {
            Ok(value) => has_room_for_servers(json_of(root)) && json_of(value) == registered(
                json_of(root),
                *room,
            ),
            Err(why) => !has_room_for_servers(json_of(root)) && why@ == not_servers(path@),
        },
{
    let ghost before = json_of(root);
    if let Node::Object(mut object) = open(root) {
        let held = match take(&mut object, "mcpServers") {
            Some(value) => open(value),
            None => Node::Object(new_object()),
        };
        if let Node::Object(mut servers) = held {
            sweep(&mut servers, room.room_url);
            let name = server_name_for(room.account_id, room.room_id);
            crate::json::put(&mut servers, name, entry_value(room));
            put_value(&mut object, "mcpServers", object_value(servers));
            proof {
                assert(entries_of(object) =~= before->Object_0.insert(
                    "mcpServers"@,
                    Json::Object(servers_with(servers_in(before), *room)),
                ));
            }
            Ok(object_value(object))
        } else {
            let mut message: String = path.to_owned();
            message.append(" has a non-object mcpServers.");
            Err(message)
        }
    } else {
        Err(String::new())
    }
}

/// Merge the room server into the file at `path`, given what the file holds. Returns the
/// text to write, which is read again as the merged file: the same but for its numbers, and
/// the same altogether where those are whole.
pub fn register_sidecar(path: &str, file: Option<&str>, room: &RoomRegistration<'_>) -> (res: Result<
    String,
    String,
>)
    ensures
        match config_read(path@, crate::text::opt_str(file)) {
            Reading::Fails(complaint) => res is Err && res->Err_0@ == complaint,
            Reading::Says(root) => if has_room_for_servers(root) {
                &&& res is Ok
                &&& res->Ok_0@ == pretty_text(registered(root, *room))
                &&& reads_alike(parsed(res->Ok_0@), registered(root, *room))
                &&& readable(registered(root, *room), read_depth()) ==> parsed(res->Ok_0@)
                    == Reading::Says(registered(root, *room))
            } else {
                res is Err && res->Err_0@ == not_servers(path@)
            },
        },
{
    match read_config(path, file) {
        Ok(root) => {
            let ghost before = json_of(root);
            match register_in(path, root, room) {
                Ok(value) => {
                    proof {
                        lemma_registered_nests(before, *room);
                    }
                    pretty(&value)
                },
                Err(why) => Err(why),
            }
        },
        Err(why) => Err(why),
    }
}

// ---------------------------------------------------------------------------
// Laws
// ---------------------------------------------------------------------------

proof fn lemma_own_entry_url(room: RoomRegistration<'_>)
    ensures
        entry_url(sidecar_entry(room)) == Some(room.room_url@),
{
    reveal_strlit("command");
    reveal_strlit("args");
    reveal_strlit("env");
    reveal_strlit("PULLCEPT_ROOM_URL");
    reveal_strlit("PULLCEPT_ROOM_TOKEN");
    reveal_strlit("PULLCEPT_AGENT_NAME");
    reveal_strlit("PULLCEPT_ACCOUNT_ID");
    reveal_strlit("PULLCEPT_ROOM_ID");
    reveal_strlit("PULLCEPT_AGENT_HUE");
    reveal_strlit("PULLCEPT_UNSEEN_HISTORY");
    let url = "PULLCEPT_ROOM_URL"@;
    assert(url != "PULLCEPT_ROOM_TOKEN"@) by {
        assert(url.len() != "PULLCEPT_ROOM_TOKEN"@.len());
    }
    assert(url != "PULLCEPT_AGENT_NAME"@) by {
        assert(url.len() != "PULLCEPT_AGENT_NAME"@.len());
    }
    assert(url != "PULLCEPT_ACCOUNT_ID"@) by {
        assert(url.len() != "PULLCEPT_ACCOUNT_ID"@.len());
    }
    assert(url != "PULLCEPT_ROOM_ID"@) by {
        assert(url.len() != "PULLCEPT_ROOM_ID"@.len());
    }
    assert(url != "PULLCEPT_AGENT_HUE"@) by {
        assert(url.len() != "PULLCEPT_AGENT_HUE"@.len());
    }
    assert(url != "PULLCEPT_UNSEEN_HISTORY"@) by {
        assert(url.len() != "PULLCEPT_UNSEEN_HISTORY"@.len());
    }
    assert(sidecar_env(room)[url] == Json::Text(room.room_url@));
}

/// A registration leaves every other key of the file as it was, every server that is not
/// under the prefix, and every sibling that carries this run's address or none.
pub proof fn law_registration_keeps_the_rest(
    root: Json,
    room: RoomRegistration<'_>,
    key: Seq<char>,
    name: Seq<char>,
)
    requires
        root is Object,
        key != "mcpServers"@,
        name != server_name(room.account_id@, room.room_id@),
        servers_in(root).contains_key(name),
        survives(name, servers_in(root)[name], room.room_url@),
    ensures
        at(registered(root, room), key) == at(root, key),
        servers_in(registered(root, room)).contains_key(name),
        servers_in(registered(root, room))[name] == servers_in(root)[name],
{
}

/// A registration names its own server, and leaves no server of the prefix with a dead
/// address behind.
pub proof fn law_registration_sweeps_the_dead(
    root: Json,
    room: RoomRegistration<'_>,
    name: Seq<char>,
)
    requires
        root is Object,
    ensures
        servers_in(registered(root, room)).contains_key(
            server_name(room.account_id@, room.room_id@),
        ),
        servers_in(registered(root, room))[server_name(room.account_id@, room.room_id@)]
            == sidecar_entry(room),
        servers_in(registered(root, room)).contains_key(name) ==> survives(
            name,
            servers_in(registered(root, room))[name],
            room.room_url@,
        ),
{
    lemma_own_entry_url(room);
}

/// Registering an account into a room it is registered in rewrites its entry and grows
/// the file by nothing: twice is what the second alone would have left.
pub proof fn law_registering_again_rewrites_the_entry(
    root: Json,
    first: RoomRegistration<'_>,
    second: RoomRegistration<'_>,
)
    requires
        root is Object,
        first.room_url@ == second.room_url@,
        first.account_id@ == second.account_id@,
        first.room_id@ == second.room_id@,
    ensures
        registered(registered(root, first), second) == registered(root, second),
{
    let once = servers_in(registered(root, first));
    let servers = servers_in(root);
    lemma_own_entry_url(first);
    assert(servers_with(once, second) =~= servers_with(servers, second));
    assert(registered(root, first)->Object_0.insert(
        "mcpServers"@,
        Json::Object(servers_with(servers, second)),
    ) =~= root->Object_0.insert("mcpServers"@, Json::Object(servers_with(servers, second))));
}

/// The servers that a launch must not start are the same before its registration and
/// after it, in the written file however its numbers are read: every server of the prefix
/// that stands in it then, but the launch's own.
pub proof fn law_the_others_are_read_before_the_write(
    root: Json,
    room: RoomRegistration<'_>,
    written: Json,
    before: Seq<Seq<char>>,
    after: Seq<Seq<char>>,
)
    requires
        root is Object,
        alike(registered(root, room), written),
        ascending(before),
        ascending(after),
        forall|name: Seq<char>| #[trigger]
            before.contains(name) <==> is_other(
                servers_in(root),
                room.room_url@,
                server_name(room.account_id@, room.room_id@),
                name,
            ),
        forall|name: Seq<char>| #[trigger]
            after.contains(name) <==> is_other(
                servers_in(written),
                room.room_url@,
                server_name(room.account_id@, room.room_id@),
                name,
            ),
    ensures
        before == after,
        forall|name: Seq<char>| #[trigger]
            after.contains(name) <==> servers_in(written).contains_key(name) && starts(
                name,
                SERVER_PREFIX@,
            ) && name != server_name(room.account_id@, room.room_id@),
{
    let now = servers_in(registered(root, room));
    lemma_written_servers(registered(root, room), written);
    assert forall|name: Seq<char>| #[trigger] after.contains(name) <==> servers_in(
        written,
    ).contains_key(name) && starts(name, SERVER_PREFIX@) && name != server_name(
        room.account_id@,
        room.room_id@,
    ) by {
        if servers_in(written).contains_key(name) {
            law_registration_sweeps_the_dead(root, room, name);
            lemma_alike_survives(name, now[name], servers_in(written)[name], room.room_url@);
        }
    }
    assert forall|name: Seq<char>| before.contains(name) <==> after.contains(name) by {
        if before.contains(name) {
            assert(now.contains_key(name));
        }
    }
    lemma_ascending_unique(before, after);
}

/// Registering the same room again changes nothing in the file as it was written, however
/// its numbers are read.
pub proof fn law_registering_the_same_room_again_changes_nothing(
    root: Json,
    room: RoomRegistration<'_>,
    written: Json,
)
    requires
        root is Object,
        alike(registered(root, room), written),
    ensures
        written is Object,
        has_room_for_servers(written),
        registered(written, room) == written,
{
    let merged = registered(root, room);
    let name = server_name(room.account_id@, room.room_id@);
    let now = servers_in(merged);
    let servers = servers_in(written);
    lemma_written_servers(merged, written);
    assert(alike(now[name], servers[name]));
    lemma_entry_wordy(room);
    lemma_wordy_alike(sidecar_entry(room), servers[name], 2);
    assert forall|other: Seq<char>| #[trigger] servers.contains_key(other) implies survives(
        other,
        servers[other],
        room.room_url@,
    ) by {
        law_registration_sweeps_the_dead(root, room, other);
        lemma_alike_survives(other, now[other], servers[other], room.room_url@);
    }
    assert(servers_with(servers, room) =~= servers);
    assert(written->Object_0.insert("mcpServers"@, Json::Object(servers)) =~= written->Object_0);
}

/// The keys of the file other than its servers are, in the written file, what they were but
/// for their numbers, and so is every server that stays; the launch's own entry is wholly
/// this room's.
pub proof fn law_the_written_file_keeps_the_rest(
    root: Json,
    room: RoomRegistration<'_>,
    written: Json,
    key: Seq<char>,
    name: Seq<char>,
)
    requires
        root is Object,
        alike(registered(root, room), written),
        key != "mcpServers"@,
        name != server_name(room.account_id@, room.room_id@),
    ensures
        at(root, key) is Some <==> at(written, key) is Some,
        at(root, key) is Some ==> alike(at(root, key)->0, at(written, key)->0),
        servers_in(written).contains_key(name) <==> servers_in(root).contains_key(name) && survives(
            name,
            servers_in(root)[name],
            room.room_url@,
        ),
        servers_in(written).contains_key(name) ==> alike(
            servers_in(root)[name],
            servers_in(written)[name],
        ),
        servers_in(written).contains_key(server_name(room.account_id@, room.room_id@)),
        servers_in(written)[server_name(room.account_id@, room.room_id@)] == sidecar_entry(room),
{
    let merged = registered(root, room);
    let own = server_name(room.account_id@, room.room_id@);
    lemma_alike_parts(merged, written);
    lemma_written_servers(merged, written);
    assert(merged->Object_0.contains_key(key) <==> written->Object_0.contains_key(key));
    if at(root, key) is Some {
        assert(alike(merged->Object_0[key], written->Object_0[key]));
    }
    let now = servers_in(merged);
    assert(now.contains_key(name) <==> servers_in(root).contains_key(name) && survives(
        name,
        servers_in(root)[name],
        room.room_url@,
    ));
    assert(alike(now[own], servers_in(written)[own]));
    lemma_entry_wordy(room);
    lemma_wordy_alike(sidecar_entry(room), servers_in(written)[own], 2);
}

/// The servers of alike files are under the same names, and alike.
proof fn lemma_written_servers(merged: Json, written: Json)
    requires
        alike(merged, written),
        merged is Object,
        at(merged, "mcpServers"@) is Some,
        at(merged, "mcpServers"@)->0 is Object,
    ensures
        written is Object,
        at(written, "mcpServers"@) is Some,
        at(written, "mcpServers"@)->0 is Object,
        servers_in(written).dom() == servers_in(merged).dom(),
        forall|name: Seq<char>|
            #![trigger servers_in(written)[name]]
            #![trigger servers_in(merged)[name]]
            servers_in(merged).contains_key(name) ==> alike(
                servers_in(merged)[name],
                servers_in(written)[name],
            ),
{
    lemma_alike_parts(merged, written);
    let key = "mcpServers"@;
    assert(written->Object_0.contains_key(key));
    let a = merged->Object_0[key];
    let b = written->Object_0[key];
    assert(alike(a, b));
    lemma_alike_parts(a, b);
    assert(servers_in(merged) == a->Object_0);
    assert(servers_in(written) == b->Object_0);
    assert forall|name: Seq<char>|
        #![trigger servers_in(written)[name]]
        #![trigger servers_in(merged)[name]]
        servers_in(merged).contains_key(name) implies alike(
        servers_in(merged)[name],
        servers_in(written)[name],
    ) by {
        assert(alike(a->Object_0[name], b->Object_0[name]));
    }
}

/// An entry survives as one that is alike to it does.
proof fn lemma_alike_survives(name: Seq<char>, a: Json, b: Json, room_url: Seq<char>)
    requires
        alike(a, b),
    ensures
        survives(name, a, room_url) == survives(name, b, room_url),
{
    lemma_alike_at(a, b, "env"@);
    if at(a, "env"@) is Some {
        let x = at(a, "env"@)->0;
        let y = at(b, "env"@)->0;
        lemma_alike_at(x, y, "PULLCEPT_ROOM_URL"@);
        if at(x, "PULLCEPT_ROOM_URL"@) is Some {
            lemma_alike_parts(
                at(x, "PULLCEPT_ROOM_URL"@)->0,
                at(y, "PULLCEPT_ROOM_URL"@)->0,
            );
        }
    }
}

proof fn lemma_alike_at(a: Json, b: Json, key: Seq<char>)
    requires
        alike(a, b),
    ensures
        at(a, key) is Some <==> at(b, key) is Some,
        at(a, key) is Some ==> alike(at(a, key)->0, at(b, key)->0),
{
    lemma_alike_parts(a, b);
    if a is Object {
        assert(a->Object_0.contains_key(key) <==> b->Object_0.contains_key(key));
        if a->Object_0.contains_key(key) {
            assert(alike(a->Object_0[key], b->Object_0[key]));
        }
    }
}

/// A file that can be read can be read again once a launch is registered.
proof fn lemma_registered_nests(root: Json, room: RoomRegistration<'_>)
    requires
        root is Object,
        nests_within(root, read_depth()),
    ensures
        nests_within(registered(root, room), read_depth()),
{
    let servers = servers_in(root);
    let now = servers_with(servers, room);
    let merged = registered(root, room)->Object_0;
    lemma_entry_wordy(room);
    lemma_wordy_nests(sidecar_entry(room), 2);
    lemma_nests_deeper(sidecar_entry(room), 2, 125);
    assert forall|name: Seq<char>| #[trigger] now.contains_key(name) implies nests_within(
        now[name],
        125,
    ) by {
        if name != server_name(room.account_id@, room.room_id@) {
            assert(servers.contains_key(name));
            assert(root->Object_0.contains_key("mcpServers"@));
            assert(nests_within(root->Object_0["mcpServers"@], 126));
        }
    }
    assert(nests_within(Json::Object(now), 126));
    assert forall|key: Seq<char>| #[trigger] merged.contains_key(key) implies nests_within(
        merged[key],
        126,
    ) by {
        if key != "mcpServers"@ {
            assert(root->Object_0.contains_key(key));
        }
    }
}

/// The entry that a registration writes holds no number.
proof fn lemma_entry_wordy(room: RoomRegistration<'_>)
    ensures
        wordy(sidecar_entry(room), 2),
{
    let env = sidecar_env(room);
    assert forall|key: Seq<char>| #[trigger] env.contains_key(key) implies wordy(env[key], 0) by {
        assert(env[key] is Text);
    }
    assert(wordy(Json::Object(env), 1));
    let args = seq![room.sidecar_runner@, room.sidecar_entry@];
    let items = args.map_values(|text: Seq<char>| Json::Text(text));
    assert forall|i: int| 0 <= i < items.len() implies wordy(#[trigger] items[i], 0) by {
        assert(items[i] == Json::Text(args[i]));
    }
    assert(wordy(text_list(args), 1));
    let entries = sidecar_entry(room)->Object_0;
    assert forall|key: Seq<char>| #[trigger] entries.contains_key(key) implies wordy(
        entries[key],
        1,
    ) by {
        assert(entries[key] == Json::Object(env) || entries[key] == text_list(args) || entries[key]
            == Json::Text("node"@));
    }
}

/// The keys of an entry and of its environment are different texts.
proof fn lemma_entry_keys()
    ensures
        "command"@.len() == 7,
        "args"@.len() == 4,
        "env"@.len() == 3,
        "PULLCEPT_ROOM_URL"@.len() == 17,
        "PULLCEPT_ROOM_TOKEN"@.len() == 19 && "PULLCEPT_ROOM_TOKEN"@[9] == 'R',
        "PULLCEPT_AGENT_NAME"@.len() == 19 && "PULLCEPT_AGENT_NAME"@[9] == 'A'
            && "PULLCEPT_AGENT_NAME"@[10] == 'G',
        "PULLCEPT_ACCOUNT_ID"@.len() == 19 && "PULLCEPT_ACCOUNT_ID"@[9] == 'A'
            && "PULLCEPT_ACCOUNT_ID"@[10] == 'C',
        "PULLCEPT_ROOM_ID"@.len() == 16,
        "PULLCEPT_AGENT_HUE"@.len() == 18,
        "PULLCEPT_UNSEEN_HISTORY"@.len() == 23,
{
    reveal_strlit("command");
    reveal_strlit("args");
    reveal_strlit("env");
    reveal_strlit("PULLCEPT_ROOM_URL");
    reveal_strlit("PULLCEPT_ROOM_TOKEN");
    reveal_strlit("PULLCEPT_AGENT_NAME");
    reveal_strlit("PULLCEPT_ACCOUNT_ID");
    reveal_strlit("PULLCEPT_ROOM_ID");
    reveal_strlit("PULLCEPT_AGENT_HUE");
    reveal_strlit("PULLCEPT_UNSEEN_HISTORY");
}

/// Whether an entry starts the sidecar of a launch: the runner with the entry point, and in
/// the environment the room's address and token, the name, the account and the room; the hue
/// where one was declared; and the mark of unseen posts where there are some.
pub open spec fn starts_sidecar(entry: Json, room: RoomRegistration<'_>) -> bool {
    let env = at(entry, "env"@);
    &&& says(entry, "command"@, "node"@)
    &&& at(entry, "args"@) == Some(
        Json::List(seq![Json::Text(room.sidecar_runner@), Json::Text(room.sidecar_entry@)]),
    )
    &&& env is Some
    &&& says(env->0, "PULLCEPT_ROOM_URL"@, room.room_url@)
    &&& says(env->0, "PULLCEPT_ROOM_TOKEN"@, room.token@)
    &&& says(env->0, "PULLCEPT_AGENT_NAME"@, room.agent_name@)
    &&& says(env->0, "PULLCEPT_ACCOUNT_ID"@, room.account_id@)
    &&& says(env->0, "PULLCEPT_ROOM_ID"@, room.room_id@)
    &&& says_if_any(
        env->0,
        "PULLCEPT_AGENT_HUE"@,
        match room.agent_hue {
            Some(hue) => Some(one_decimal(crate::json::number_text(*hue))),
            None => None,
        },
    )
    &&& says_if_any(
        env->0,
        "PULLCEPT_UNSEEN_HISTORY"@,
        if room.unseen_history {
            Some(seq!['1'])
        } else {
            None
        },
    )
}

proof fn lemma_starts_sidecar(room: RoomRegistration<'_>)
    ensures
        starts_sidecar(sidecar_entry(room), room),
{
    lemma_entry_keys();
    reveal_strlit("1");
    assert("1"@ =~= seq!['1']);
    let args = seq![room.sidecar_runner@, room.sidecar_entry@];
    assert(args.map_values(|text: Seq<char>| Json::Text(text)) =~= seq![
        Json::Text(room.sidecar_runner@),
        Json::Text(room.sidecar_entry@),
    ]);
}

/// A launch is registered exactly where the file is not there, or is a JSON object whose
/// servers, where it has any, are an object. What is to be written is read again with an
/// entry, under the launch's own name, that starts its sidecar.
pub proof fn law_a_registered_launch_starts_its_sidecar(
    path: &str,
    file: Option<&str>,
    room: RoomRegistration<'_>,
    res: Result<String, String>,
)
    requires
        register_sidecar.ensures((path, file, &room), res),
    ensures
        ({
            let read = parsed(file->0@);
            let servers = at(read->Says_0, "mcpServers"@);
            res is Ok <==> file is None || (read is Says && read->Says_0 is Object && (servers is None
                || servers->0 is Object))
        }),
        res is Ok ==> {
            let written = parsed(res->Ok_0@)->Says_0;
            let servers = at(written, "mcpServers"@);
            let own = at(servers->0, server_name(room.account_id@, room.room_id@));
            &&& parsed(res->Ok_0@) is Says
            &&& servers is Some
            &&& own is Some
            &&& starts_sidecar(own->0, room)
        },
{
    lemma_starts_sidecar(room);
    if res is Ok {
        let root = config_read(path@, crate::text::opt_str(file))->Says_0;
        let written = parsed(res->Ok_0@)->Says_0;
        lemma_written_servers(registered(root, room), written);
        let other = server_name(room.account_id@, room.room_id@).push('-');
        let key = "mcpServers"@.push('-');
        assert(key.len() == "mcpServers"@.len() + 1);
        assert(other.len() == server_name(room.account_id@, room.room_id@).len() + 1);
        law_the_written_file_keeps_the_rest(root, room, written, key, other);
    }
}

/// Whether an entry is dead to a room: under the prefix of this app's servers, with an
/// address in its environment that is not the room's.
pub open spec fn is_dead(name: Seq<char>, entry: Json, room_url: Seq<char>) -> bool {
    let env = at(entry, "env"@);
    let url = at(env->0, "PULLCEPT_ROOM_URL"@);
    &&& name.len() >= 13
    &&& name.take(13) == "pullcept-room"@
    &&& env is Some && url is Some && url->0 is Text
    &&& url->0->Text_0 != room_url
}

/// A registration takes the dead entries out of the file and no other; what it leaves under
/// any other name is what was there, but for how numbers are read.
pub proof fn law_a_registration_takes_out_the_dead_alone(
    path: &str,
    file: Option<&str>,
    room: RoomRegistration<'_>,
    res: Result<String, String>,
    name: Seq<char>,
    key: Seq<char>,
)
    requires
        register_sidecar.ensures((path, file, &room), res),
        res is Ok,
        file is Some,
        name != server_name(room.account_id@, room.room_id@),
        key != "mcpServers"@,
    ensures
        ({
            let before = parsed(file->0@)->Says_0;
            let after = parsed(res->Ok_0@)->Says_0;
            let was = match at(before, "mcpServers"@) {
                Some(servers) => at(servers, name),
                None => None,
            };
            let now = at(at(after, "mcpServers"@)->0, name);
            &&& now is Some <==> was is Some && !is_dead(name, was->0, room.room_url@)
            &&& now is Some ==> alike(was->0, now->0)
            &&& at(after, key) is Some <==> at(before, key) is Some
            &&& at(after, key) is Some ==> alike(at(before, key)->0, at(after, key)->0)
        }),
{
    reveal_strlit("pullcept-room");
    let root = config_read(path@, crate::text::opt_str(file))->Says_0;
    let written = parsed(res->Ok_0@)->Says_0;
    lemma_written_servers(registered(root, room), written);
    law_the_written_file_keeps_the_rest(root, room, written, key, name);
}

/// The servers that a launch must not start are those under the prefix that are neither its
/// own nor dead, each once and in the order of their names; there are none where there is no
/// file.
pub proof fn law_which_servers_a_launch_must_not_start(
    path: &str,
    file: Option<&str>,
    room_url: &str,
    own: &str,
    res: Result<Vec<String>, String>,
    name: Seq<char>,
)
    requires
        other_room_servers.ensures((path, file, room_url, own), res),
    ensures
        file is None ==> res is Ok && res->Ok_0@.len() == 0,
        file is Some ==> (res is Ok <==> parsed(file->0@) is Says && parsed(
            file->0@,
        )->Says_0 is Object),
        file is Some && res is Ok ==> {
            let servers = at(parsed(file->0@)->Says_0, "mcpServers"@);
            let entry = at(servers->0, name);
            &&& ascending(texts(res->Ok_0@))
            &&& texts(res->Ok_0@).contains(name) <==> {
                &&& servers is Some && entry is Some
                &&& name.len() >= 13 && name.take(13) == "pullcept-room"@
                &&& name != own@
                &&& !is_dead(name, entry->0, room_url@)
            }
        },
{
    reveal_strlit("pullcept-room");
}

/// Why a file is refused: it is no JSON, it is no object, or its servers are none.
pub proof fn law_why_a_file_is_refused(
    path: &str,
    file: Option<&str>,
    room: RoomRegistration<'_>,
    res: Result<String, String>,
)
    requires
        register_sidecar.ensures((path, file, &room), res),
        res is Err,
    ensures
        file is Some,
        res->Err_0@ == path@ + match parsed(file->0@) {
            Reading::Fails(why) => " exists but is not valid JSON ("@ + why
                + "). Fix or move it before starting a session."@,
            Reading::Says(json) => if json is Object {
                " has a non-object mcpServers."@
            } else {
                " is not a JSON object."@
            },
        },
{
    if parsed(file->0@) is Fails {
        let why = parsed(file->0@)->Fails_0;
        assert(path@ + " exists but is not valid JSON ("@ + why
            + "). Fix or move it before starting a session."@ =~= path@ + (
        " exists but is not valid JSON ("@ + why
            + "). Fix or move it before starting a session."@));
    }
}

} // verus!
