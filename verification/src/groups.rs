//! The objects of consumer groups: where they are, and which group an object is of.

use crate::error::Error;
use crate::opticon::OptiCon;
use crate::ordmap::Key;
use crate::path::{
    a_plain_text_is_its_own_path, begins_part, head_of, is_plain, join_from, joined,
    joining_undoes_parting, lemma_below, lemma_first_part, lemma_last_part, lemma_names_join,
    lemma_plain_join, lemma_plain_stem, lemma_stem, names_of, parts, parts_of, parts_under,
    path_from, path_of, plain_char, prefix_parts, stem, texts_view,
};
use crate::prefixes::ClientCaches;
use crate::segment::Topition;
use crate::store::DynoStore;
use crate::text::{
    decimal, ends_with_text, lemma_before_head, lemma_before_tail, lemma_decimal_chars,
    padded_decimal, padded_numbers_sort_as_numbers, strip_suffix, ten_to, text_before, zero_padded,
};
use vstd::prelude::*;
use vstd::string::*;

verus! {

/// The text under which everything of every group lies.
pub open spec fn consumers(cluster: Seq<char>) -> Seq<char> {
    "clusters/"@ + cluster + "/groups/consumers/"@
}

/// The same without a delimiter at its end.
pub open spec fn consumer_tree(cluster: Seq<char>) -> Seq<char> {
    "clusters/"@ + cluster + "/groups/consumers"@
}

/// Where everything of a group lies. An id that adds no part of its own has none:
/// it would mean every group.
pub open spec fn prefix_of(cluster: Seq<char>, group_id: Seq<char>) -> Option<Seq<char>> {
    let prefix = path_of(consumers(cluster) + group_id);
    if prefix == path_of(consumers(cluster)) {
        None
    } else {
        Some(prefix)
    }
}

/// Where something lies under a group's prefix.
pub open spec fn under_prefix(
    cluster: Seq<char>,
    group_id: Seq<char>,
    rest: Seq<char>,
) -> Option<Seq<char>> {
    match prefix_of(cluster, group_id) {
        Some(prefix) => Some(path_of(prefix + rest)),
        None => None,
    }
}

/// Where the document of a member lies. An id that adds no name of its own has
/// none.
pub open spec fn member_path(
    cluster: Seq<char>,
    group_id: Seq<char>,
    member_id: Seq<char>,
) -> Option<Seq<char>> {
    match under_prefix(cluster, group_id, "/members"@) {
        Some(prefix) => {
            let location = path_of(prefix + "/"@ + member_id + ".json"@);
            if location == path_of(prefix + "/.json"@) {
                None
            } else {
                Some(location)
            }
        },
        None => None,
    }
}

/// The view of a path that may be absent.
pub open spec fn path_view(path: Option<String>) -> Option<Seq<char>> {
    match path {
        Some(path) => Some(path@),
        None => None,
    }
}

proof fn lemma_consumers(cluster: Seq<char>)
    ensures
        consumers(cluster) == consumer_tree(cluster) + seq!['/'],
        is_plain(cluster) ==> is_plain(consumer_tree(cluster)),
{
    reveal_strlit("clusters/");
    reveal_strlit("/groups/consumers/");
    reveal_strlit("/groups/consumers");
    assert(consumers(cluster) =~= consumer_tree(cluster) + seq!['/']);
    if is_plain(cluster) {
        let head = seq!['c', 'l', 'u', 's', 't', 'e', 'r', 's'];
        let tail = seq![
            'g',
            'r',
            'o',
            'u',
            'p',
            's',
            '/',
            'c',
            'o',
            'n',
            's',
            'u',
            'm',
            'e',
            'r',
            's',
        ];
        assert(is_plain(head));
        assert(is_plain(tail));
        lemma_plain_join(head, cluster);
        lemma_plain_join(head + seq!['/'] + cluster, tail);
        assert(consumer_tree(cluster) =~= head + seq!['/'] + cluster + seq!['/'] + tail);
    }
}

/// Where the document of a member lies that is made of plain ids.
pub open spec fn document_path(cluster: Seq<char>, group_id: Seq<char>, member_id: Seq<char>) -> Seq<
    char,
> {
    consumer_tree(cluster) + "/"@ + group_id + "/members/"@ + member_id + ".json"@
}

proof fn lemma_document_name(member_id: Seq<char>)
    requires
        is_plain(member_id),
    ensures
        is_plain(member_id + ".json"@),
{
    reveal_strlit(".json");
    let name = member_id + ".json"@;
    let n = member_id.len() as int;
    assert forall|i: int| 0 <= i < name.len() implies plain_char(
        #[trigger] name[i],
    ) by {
        if i < n {
            assert(name[i] == member_id[i]);
        }
    }
    assert(begins_part(member_id, 0));
    if n > 1 {
        assert(name[1] == member_id[1]);
    }
    assert forall|i: int| 0 < i < name.len() && name[i - 1] == '/' implies #[trigger] begins_part(
        name,
        i,
    ) by {
        assert(name[i - 1] == member_id[i - 1]);
        assert(member_id.last() != '/');
        assert(begins_part(member_id, i));
        assert(name[i] == member_id[i]);
        if i + 1 < n {
            assert(name[i + 1] == member_id[i + 1]);
        }
        if i + 2 < n {
            assert(name[i + 2] == member_id[i + 2]);
        }
    }
    assert(name[0] == member_id[0]);
    if n > 2 {
        assert(name[2] == member_id[2]);
    }
}

proof fn lemma_plain_document(cluster: Seq<char>, group_id: Seq<char>, member_id: Seq<char>)
    requires
        is_plain(cluster),
        is_plain(group_id),
        is_plain(member_id),
    ensures
        ({
            let prefix = consumer_tree(cluster) + "/"@ + group_id + "/members"@;
            let location = document_path(cluster, group_id, member_id);
            &&& prefix + "/"@ + member_id + ".json"@ == location
            &&& is_plain(location)
            &&& is_plain(prefix + "/.json"@)
            &&& stem(location) == location
            &&& stem(prefix + "/.json"@) == prefix + "/.json"@
            &&& prefix + "/.json"@ != location
        }),
{
    reveal_strlit("/");
    reveal_strlit("/members");
    reveal_strlit("/members/");
    reveal_strlit(".json");
    let tree = consumer_tree(cluster);
    let prefix = tree + "/"@ + group_id + "/members"@;
    let location = document_path(cluster, group_id, member_id);
    let members = seq!['m', 'e', 'm', 'b', 'e', 'r', 's'];
    let name = member_id + ".json"@;
    assert(prefix + "/"@ + member_id + ".json"@ =~= location);
    assert(is_plain(members));
    lemma_consumers(cluster);
    lemma_plain_join(tree, group_id);
    lemma_plain_join(tree + seq!['/'] + group_id, members);
    lemma_document_name(member_id);
    let bare = seq!['.', 'j', 's', 'o', 'n'];
    reveal_strlit("/.json");
    assert(is_plain(bare));
    assert(prefix + "/.json"@ =~= tree + seq!['/'] + group_id + seq!['/'] + members + seq!['/']
        + bare);
    lemma_plain_join(tree + seq!['/'] + group_id + seq!['/'] + members, bare);
    lemma_plain_join(tree + seq!['/'] + group_id + seq!['/'] + members, name);
    assert(location =~= tree + seq!['/'] + group_id + seq!['/'] + members + seq!['/'] + name);
    lemma_plain_stem(location);
}

/// Where the assignment of a generation lies. A negative generation has none.
pub open spec fn assignment_path(
    cluster: Seq<char>,
    group_id: Seq<char>,
    generation_id: int,
) -> Option<Seq<char>> {
    match under_prefix(cluster, group_id, "/assignment"@) {
        Some(prefix) => if generation_id < 0 {
            None
        } else {
            Some(
                path_of(
                    prefix + "/"@ + zero_padded(decimal(generation_id as nat), 10) + ".json"@,
                ),
            )
        },
        None => None,
    }
}

/// The member that a listed document names: the last part of where it lies, without
/// the extension.
pub open spec fn listed_id(location: Seq<char>) -> Option<Seq<char>> {
    let names = parts_of(location);
    if names.len() > 0 && ends_with_text(names.last(), ".json"@) {
        Some(names.last().subrange(0, names.last().len() - ".json"@.len()))
    } else {
        None
    }
}

/// An id that a path holds as it is, in one part.
pub open spec fn is_name(id: Seq<char>) -> bool {
    is_plain(id) && !id.contains('/')
}

/// Ids of ASCII letters, digits, dashes and underscores are held as they are.
pub proof fn simple_ids_are_names(id: Seq<char>)
    requires
        id.len() > 0,
        forall|i: int|
            0 <= i < id.len() ==> {
                let c = #[trigger] id[i];
                ('a' <= c <= 'z') || ('A' <= c <= 'Z') || ('0' <= c <= '9') || c == '-' || c == '_'
            },
    ensures
        is_name(id),
{
    assert forall|i: int| 0 <= i < id.len() implies plain_char(#[trigger] id[i]) by {}
    assert(id[0] != '.' && id[0] != '/');
}

proof fn lemma_plain_prefix(cluster: Seq<char>, group_id: Seq<char>)
    requires
        is_plain(cluster),
        is_plain(group_id),
    ensures
        path_of(consumers(cluster)) == consumer_tree(cluster),
        is_plain(consumer_tree(cluster) + "/"@ + group_id),
        prefix_of(cluster, group_id) == Some(consumer_tree(cluster) + "/"@ + group_id),
{
    let tree = consumer_tree(cluster);
    reveal_strlit("/");
    assert("/"@ =~= seq!['/']);
    lemma_consumers(cluster);
    lemma_stem(tree, seq!['/']);
    lemma_plain_stem(tree);
    a_plain_text_is_its_own_path(consumers(cluster));
    lemma_plain_join(tree, group_id);
    let text = consumers(cluster) + group_id;
    assert(text =~= tree + seq!['/'] + group_id);
    lemma_plain_stem(text);
    a_plain_text_is_its_own_path(text);
}

proof fn lemma_plain_under(cluster: Seq<char>, group_id: Seq<char>, rest: Seq<char>)
    requires
        is_plain(cluster),
        is_plain(group_id),
        rest.len() > 0,
        rest[0] == '/',
        is_plain(rest.skip(1)),
    ensures
        under_prefix(cluster, group_id, rest) == Some(
            consumer_tree(cluster) + "/"@ + group_id + rest,
        ),
{
    lemma_plain_prefix(cluster, group_id);
    let prefix = consumer_tree(cluster) + "/"@ + group_id;
    lemma_plain_join(prefix, rest.skip(1));
    let text = prefix + rest;
    assert(text =~= prefix + seq!['/'] + rest.skip(1));
    lemma_plain_stem(text);
    a_plain_text_is_its_own_path(text);
}

proof fn lemma_plain_member(cluster: Seq<char>, group_id: Seq<char>, member_id: Seq<char>)
    requires
        is_plain(cluster),
        is_plain(group_id),
        is_plain(member_id),
    ensures
        member_path(cluster, group_id, member_id) == Some(
            document_path(cluster, group_id, member_id),
        ),
{
    lemma_members(cluster, group_id);
    lemma_plain_document(cluster, group_id, member_id);
    let prefix = consumer_tree(cluster) + "/"@ + group_id + "/members"@;
    a_plain_text_is_its_own_path(prefix + "/"@ + member_id + ".json"@);
    a_plain_text_is_its_own_path(prefix + "/.json"@);
}

proof fn lemma_members(cluster: Seq<char>, group_id: Seq<char>)
    requires
        is_plain(cluster),
        is_plain(group_id),
    ensures
        under_prefix(cluster, group_id, "/members"@) == Some(
            consumer_tree(cluster) + "/"@ + group_id + "/members"@,
        ),
{
    reveal_strlit("/members");
    let name = "/members"@.skip(1);
    assert(name =~= seq!['m', 'e', 'm', 'b', 'e', 'r', 's']);
    assert(is_plain(name));
    lemma_plain_under(cluster, group_id, "/members"@);
}

proof fn lemma_assignments(cluster: Seq<char>, group_id: Seq<char>)
    requires
        is_plain(cluster),
        is_plain(group_id),
    ensures
        under_prefix(cluster, group_id, "/assignment"@) == Some(
            consumer_tree(cluster) + "/"@ + group_id + "/assignment"@,
        ),
{
    reveal_strlit("/assignment");
    let name = "/assignment"@.skip(1);
    assert(name =~= seq!['a', 's', 's', 'i', 'g', 'n', 'm', 'e', 'n', 't']);
    assert(is_plain(name));
    lemma_plain_under(cluster, group_id, "/assignment"@);
}

proof fn lemma_generation(cluster: Seq<char>, group_id: Seq<char>)
    requires
        is_plain(cluster),
        is_plain(group_id),
    ensures
        under_prefix(cluster, group_id, "/generation.json"@) == Some(
            consumer_tree(cluster) + "/"@ + group_id + "/generation.json"@,
        ),
{
    reveal_strlit("/generation.json");
    let name = "/generation.json"@.skip(1);
    assert(name =~= seq![
        'g',
        'e',
        'n',
        'e',
        'r',
        'a',
        't',
        'i',
        'o',
        'n',
        '.',
        'j',
        's',
        'o',
        'n',
    ]);
    assert(is_plain(name));
    lemma_plain_under(cluster, group_id, "/generation.json"@);
}

proof fn lemma_padded_name(generation_id: nat)
    requires
        generation_id <= i32::MAX,
    ensures
        is_plain(zero_padded(decimal(generation_id), 10) + ".json"@),
{
    reveal_strlit(".json");
    lemma_decimal_chars(generation_id);
    let number = decimal(generation_id);
    let padded = zero_padded(number, 10);
    let name = padded + ".json"@;
    let zeros = padded.len() - number.len();
    assert forall|i: int| 0 <= i < padded.len() implies '0' <= #[trigger] padded[i] <= '9' by {
        if i >= zeros {
            assert(padded[i] == number[i - zeros]);
        }
    }
    assert forall|i: int| 0 <= i < name.len() implies plain_char(#[trigger] name[i]) && name[i]
        != '/' by {
        if i < padded.len() {
            assert(name[i] == padded[i]);
        } else {
            assert(name[i] == ".json"@[i - padded.len()]);
        }
    }
    assert(name[0] == padded[0]);
    assert(name[0] != '.');
}

proof fn lemma_plain_assignment(cluster: Seq<char>, group_id: Seq<char>, generation_id: int)
    requires
        is_plain(cluster),
        is_plain(group_id),
        0 <= generation_id <= i32::MAX,
    ensures
        assignment_path(cluster, group_id, generation_id) == Some(
            consumer_tree(cluster) + "/"@ + group_id + "/assignment/"@ + zero_padded(
                decimal(generation_id as nat),
                10,
            ) + ".json"@,
        ),
{
    reveal_strlit("/");
    reveal_strlit("/assignment");
    reveal_strlit("/assignment/");
    assert("/"@ =~= seq!['/']);
    lemma_assignments(cluster, group_id);
    lemma_padded_name(generation_id as nat);
    lemma_plain_prefix(cluster, group_id);
    let prefix = consumer_tree(cluster) + "/"@ + group_id;
    let name = seq!['a', 's', 's', 'i', 'g', 'n', 'm', 'e', 'n', 't'];
    assert(is_plain(name));
    lemma_plain_join(prefix, name);
    assert(prefix + "/assignment"@ =~= prefix + seq!['/'] + name);
    let number = zero_padded(decimal(generation_id as nat), 10);
    let file = number + ".json"@;
    lemma_plain_join(prefix + "/assignment"@, file);
    let text = prefix + "/assignment"@ + "/"@ + number + ".json"@;
    assert(text =~= prefix + "/assignment"@ + seq!['/'] + file);
    assert(text =~= prefix + "/assignment/"@ + number + ".json"@);
    lemma_plain_stem(text);
    a_plain_text_is_its_own_path(text);
}

/// The assignments of a group are listed in the order of its generations. Only a
/// negative generation, or a group whose id adds no part of its own, has none.
pub proof fn assignments_are_listed_in_order(
    cluster: Seq<char>,
    group_id: Seq<char>,
    earlier: i32,
    later: i32,
)
    requires
        earlier < later,
    ensures
        assignment_path(cluster, group_id, earlier as int) is None <==> earlier < 0 || prefix_of(
            cluster,
            group_id,
        ) is None,
        assignment_path(cluster, group_id, earlier as int) is Some ==> {
            &&& assignment_path(cluster, group_id, later as int) is Some
            &&& text_before(
                assignment_path(cluster, group_id, earlier as int)->0,
                assignment_path(cluster, group_id, later as int)->0,
            )
        },
{
    if assignment_path(cluster, group_id, earlier as int) is Some {
        reveal_strlit("/");
        assert("/"@ =~= seq!['/']);
        let prefix = under_prefix(cluster, group_id, "/assignment"@)->0;
        let a = zero_padded(decimal(earlier as nat), 10);
        let b = zero_padded(decimal(later as nat), 10);
        assert(ten_to(10) == 10_000_000_000) by {
            reveal_with_fuel(ten_to, 11);
        }
        padded_numbers_sort_as_numbers(earlier as nat, later as nat, 10);
        lemma_before_tail(a, b, ".json"@, ".json"@);
        lemma_padded_name(earlier as nat);
        lemma_padded_name(later as nat);
        lemma_below(prefix, a + ".json"@);
        lemma_below(prefix, b + ".json"@);
        assert(prefix + "/"@ + a + ".json"@ =~= prefix + seq!['/'] + (a + ".json"@));
        assert(prefix + "/"@ + b + ".json"@ =~= prefix + seq!['/'] + (b + ".json"@));
        lemma_before_head(head_of(prefix), a + ".json"@, b + ".json"@);
    }
}

/// Where the document of a member lies, the listing names the member.
pub proof fn members_are_listed_by_their_ids(
    cluster: Seq<char>,
    group_id: Seq<char>,
    member_id: Seq<char>,
)
    requires
        prefix_of(cluster, group_id) is Some,
        is_name(member_id),
    ensures
        member_path(cluster, group_id, member_id) is Some,
        listed_id(member_path(cluster, group_id, member_id)->0) == Some(member_id),
{
    reveal_strlit("/");
    reveal_strlit(".json");
    reveal_strlit("/.json");
    assert("/"@ =~= seq!['/']);
    let prefix = under_prefix(cluster, group_id, "/members"@)->0;
    let name = member_id + ".json"@;
    let bare = ".json"@;
    lemma_document_name(member_id);
    assert(bare =~= seq!['.', 'j', 's', 'o', 'n']);
    assert(is_plain(bare));
    lemma_below(prefix, name);
    lemma_below(prefix, bare);
    assert(prefix + "/"@ + member_id + ".json"@ =~= prefix + seq!['/'] + name);
    assert(prefix + "/.json"@ =~= prefix + seq!['/'] + bare);
    assert((head_of(prefix) + name).len() != (head_of(prefix) + bare).len());
    let location = head_of(prefix) + name;
    if head_of(prefix).len() == 0 {
        assert(location =~= name);
        lemma_last_part(Seq::empty(), name);
    } else {
        lemma_last_part(path_of(prefix), name);
    }
    assert(parts_of(location).last() == name);
    assert(ends_with_text(name, ".json"@)) by {
        assert(name.subrange(name.len() - 5, name.len() as int) =~= ".json"@);
    }
    assert(name.subrange(0, name.len() - 5) =~= member_id);
}

/// What does not end in the extension of a document is not listed as a member.
pub proof fn only_documents_are_listed(location: Seq<char>)
    requires
        parts_of(location).len() > 0,
        !ends_with_text(parts_of(location).last(), ".json"@),
    ensures
        listed_id(location) is None,
{
}

impl DynoStore {
    /// The root of the consumer tree: everything of every group lies under it.
    pub fn groups_root(&self) -> (root: String)
        ensures
            root@ == path_of(consumers(self.identity.cluster@)),
            is_plain(self.identity.cluster@) ==> root@ == consumer_tree(self.identity.cluster@),
    {
        let mut text = String::from_str("clusters/");
        text.append(self.identity.cluster.as_str());
        text.append("/groups/consumers/");
        proof {
            let cluster = self.identity.cluster@;
            if is_plain(cluster) {
                lemma_consumers(cluster);
                lemma_stem(consumer_tree(cluster), seq!['/']);
                lemma_plain_stem(consumer_tree(cluster));
                a_plain_text_is_its_own_path(text@);
            }
        }
        path_from(text.as_str())
    }

    /// Where everything of a group lies, or nothing where its id adds no part of its
    /// own: paths drop empty parts, so an empty id, or one of nothing but delimiters,
    /// would stand for every group.
    pub fn group_prefix(&self, group_id: &str) -> (prefix: Option<String>)
        ensures
            path_view(prefix) == prefix_of(self.identity.cluster@, group_id@),
            is_plain(self.identity.cluster@) && (forall|i: int|
                0 <= i < group_id@.len() ==> #[trigger] group_id@[i] == '/') ==> prefix is None,
            is_plain(self.identity.cluster@) && is_plain(group_id@) ==> path_view(prefix) == Some(
                consumer_tree(self.identity.cluster@) + "/"@ + group_id@,
            ),
    {
        let mut text = String::from_str("clusters/");
        text.append(self.identity.cluster.as_str());
        text.append("/groups/consumers/");
        text.append(group_id);
        let prefix = path_from(text.as_str());
        let root = self.groups_root();
        proof {
            let cluster = self.identity.cluster@;
            let tree = consumer_tree(cluster);
            lemma_consumers(cluster);
            assert(text@ =~= consumers(cluster) + group_id@);
            assert(text@ =~= tree + (seq!['/'] + group_id@));
            if is_plain(cluster) {
                lemma_plain_stem(tree);
                if forall|i: int| 0 <= i < group_id@.len() ==> #[trigger] group_id@[i] == '/' {
                    lemma_stem(tree, seq!['/'] + group_id@);
                    a_plain_text_is_its_own_path(text@);
                }
                if is_plain(group_id@) {
                    lemma_plain_prefix(cluster, group_id@);
                }
            }
        }
        if prefix.same(&root) {
            None
        } else {
            Some(prefix)
        }
    }

    /// The handle on a group's offsets, where its id stands for one group.
    pub fn group_offsets<'a, P, O>(
        &self,
        clients: &'a mut ClientCaches<P, O>,
        group_id: &str,
    ) -> (handle: Result<Option<&'a mut OptiCon<O>>, Error>)
        requires
            old(clients).wf(),
        ensures
            prefix_of(self.identity.cluster@, group_id@) is None ==> handle is Ok
                && handle->Ok_0 is None && *final(clients) == *old(clients),
            prefix_of(self.identity.cluster@, group_id@) is Some ==> match handle {
                Ok(Some(handle)) => {
                    &&& !old(clients).group_offsets.poisoned
                    &&& match old(clients).group_offsets.at(group_id@) {
                        Some(held) => *handle == held,
                        None => handle.path@ == path_of(
                            prefix_of(self.identity.cluster@, group_id@)->0 + "/offsets.json"@,
                        ),
                    }
                    &&& final(clients).group_offsets.map@ == old(clients).group_offsets.map@.insert(
                        group_id@,
                        *final(handle),
                    )
                },
                Ok(None) => false,
                Err(error) => old(clients).group_offsets.poisoned && error == Error::Poison
                    && final(clients).group_offsets == old(clients).group_offsets,
            },
    {
        match self.group_prefix(group_id) {
            None => Ok(None),
            Some(prefix) => match clients.group_offsets(group_id, prefix.as_str()) {
                Ok(handle) => Ok(Some(handle)),
                Err(error) => Err(error),
            },
        }
    }

    fn under_group(&self, group_id: &str, rest: &str) -> (path: Option<String>)
        ensures
            path_view(path) == under_prefix(self.identity.cluster@, group_id@, rest@),
    {
        match self.group_prefix(group_id) {
            Some(prefix) => {
                let mut text = prefix;
                text.append(rest);
                Some(path_from(text.as_str()))
            },
            None => None,
        }
    }

    /// Where the documents of a group's members lie.
    pub fn group_members_prefix(&self, group_id: &str) -> (prefix: Option<String>)
        ensures
            path_view(prefix) == under_prefix(self.identity.cluster@, group_id@, "/members"@),
            is_plain(self.identity.cluster@) && is_plain(group_id@) ==> path_view(prefix) == Some(
                consumer_tree(self.identity.cluster@) + "/"@ + group_id@ + "/members"@,
            ),
    {
        proof {
            if is_plain(self.identity.cluster@) && is_plain(group_id@) {
                lemma_members(self.identity.cluster@, group_id@);
            }
        }
        self.under_group(group_id, "/members")
    }

    /// Where the document of a member lies. An id that adds no name of its own has
    /// none: its document would be written over the prefix of them all.
    pub fn group_member_location(&self, group_id: &str, member_id: &str) -> (location: Option<
        String,
    >)
        ensures
            path_view(location) == member_path(self.identity.cluster@, group_id@, member_id@),
            is_plain(self.identity.cluster@) && is_plain(group_id@) && is_plain(member_id@)
                ==> path_view(location) == Some(
                document_path(self.identity.cluster@, group_id@, member_id@),
            ),
    {
        match self.group_members_prefix(group_id) {
            Some(prefix) => {
                let mut bare = prefix.clone();
                bare.append("/.json");
                let mut text = prefix;
                text.append("/");
                text.append(member_id);
                text.append(".json");
                proof {
                    let cluster = self.identity.cluster@;
                    if is_plain(cluster) && is_plain(group_id@) && is_plain(member_id@) {
                        lemma_plain_member(cluster, group_id@, member_id@);
                    }
                }
                let location = path_from(text.as_str());
                if location.same(&path_from(bare.as_str())) {
                    None
                } else {
                    Some(location)
                }
            },
            None => None,
        }
    }

    /// The member that a listed document names.
    pub fn listed_member_id(location: &str) -> (member_id: Option<String>)
        ensures
            path_view(member_id) == listed_id(location@),
    {
        let names = parts(location);
        if names.len() == 0 {
            return None;
        }
        let last = &names[names.len() - 1];
        assert(texts_view(names@).last() == last@);
        strip_suffix(last.as_str(), ".json")
    }

    /// Where a group's composition lies.
    pub fn group_generation_location(&self, group_id: &str) -> (location: Option<String>)
        ensures
            path_view(location) == under_prefix(
                self.identity.cluster@,
                group_id@,
                "/generation.json"@,
            ),
            is_plain(self.identity.cluster@) && is_plain(group_id@) ==> path_view(location) == Some(
                consumer_tree(self.identity.cluster@) + "/"@ + group_id@ + "/generation.json"@,
            ),
    {
        proof {
            if is_plain(self.identity.cluster@) && is_plain(group_id@) {
                lemma_generation(self.identity.cluster@, group_id@);
            }
        }
        self.under_group(group_id, "/generation.json")
    }

    /// Where a group's assignments lie.
    pub fn group_assignments_prefix(&self, group_id: &str) -> (prefix: Option<String>)
        ensures
            path_view(prefix) == under_prefix(self.identity.cluster@, group_id@, "/assignment"@),
            is_plain(self.identity.cluster@) && is_plain(group_id@) ==> path_view(prefix) == Some(
                consumer_tree(self.identity.cluster@) + "/"@ + group_id@ + "/assignment"@,
            ),
    {
        proof {
            if is_plain(self.identity.cluster@) && is_plain(group_id@) {
                lemma_assignments(self.identity.cluster@, group_id@);
            }
        }
        self.under_group(group_id, "/assignment")
    }

    /// Where the assignment of a generation lies: padded, so that a listing is in
    /// the order of the generations. A negative generation, which would neither sort
    /// nor be read back, has none.
    pub fn group_assignment_location(&self, group_id: &str, generation_id: i32) -> (location:
        Option<String>)
        ensures
            path_view(location) == assignment_path(
                self.identity.cluster@,
                group_id@,
                generation_id as int,
            ),
            generation_id >= 0 && is_plain(self.identity.cluster@) && is_plain(group_id@)
                ==> path_view(location) == Some(
                consumer_tree(self.identity.cluster@) + "/"@ + group_id@ + "/assignment/"@
                    + zero_padded(decimal(generation_id as nat), 10) + ".json"@,
            ),
    {
        proof {
            if generation_id >= 0 && is_plain(self.identity.cluster@) && is_plain(group_id@) {
                lemma_plain_assignment(self.identity.cluster@, group_id@, generation_id as int);
            }
        }
        if generation_id < 0 {
            return None;
        }
        match self.group_assignments_prefix(group_id) {
            Some(prefix) => {
                let mut text = prefix;
                text.append("/");
                let number = padded_decimal(generation_id as u64, 10);
                text.append(number.as_str());
                text.append(".json");
                Some(path_from(text.as_str()))
            },
            None => None,
        }
    }

    /// Where an earlier layout kept the state of a group.
    pub fn legacy_group_location(&self, group_id: &str) -> (location: String)
        ensures
            location@ == path_of(consumers(self.identity.cluster@) + group_id@ + ".json"@),
    {
        let mut text = String::from_str("clusters/");
        text.append(self.identity.cluster.as_str());
        text.append("/groups/consumers/");
        text.append(group_id);
        text.append(".json");
        path_from(text.as_str())
    }

    /// Whether a group without a generation exists: if anything of it does, the
    /// state of an earlier layout or an offset that was committed.
    pub fn group_remnants_exist(legacy: bool, committed: &Vec<Topition>) -> (exist: bool)
        ensures
            exist == (legacy || committed@.len() > 0),
    {
        legacy || committed.len() > 0
    }

    /// The group that an object under the consumer tree is of.
    pub fn group_of(root: &str, location: &str) -> (group_id: Option<String>)
        ensures
            path_view(group_id) == owner_of(root@, location@),
    {
        let names = match prefix_parts(location, root) {
            Some(names) => names,
            None => {
                return None;
            },
        };
        if names.len() == 0 {
            return None;
        }
        let first = &names[0];
        assert(texts_view(names@)[0] == first@);
        let group_id: String = if names.len() > 1 {
            first.clone()
        } else {
            match strip_suffix(first.as_str(), ".json") {
                Some(group_id) => group_id,
                None => {
                    return None;
                },
            }
        };
        if group_id.as_str().is_empty() {
            None
        } else {
            Some(group_id)
        }
    }

    /// The group and the member whose document lies at a location. An id may hold
    /// whatever a name may, so what does not lead back to the location is not
    /// judged.
    pub fn member_document_of(&self, root: &str, location: &str) -> (found: Option<
        (String, String),
    >)
        ensures
            match found {
                Some((group_id, member_id)) => document_of(
                    self.identity.cluster@,
                    root@,
                    location@,
                ) == Some((group_id@, member_id@)),
                None => document_of(self.identity.cluster@, root@, location@) is None,
            },
            forall|group_id: Seq<char>, member_id: Seq<char>|
                is_plain(self.identity.cluster@) && root@ == consumer_tree(self.identity.cluster@)
                    && is_plain(group_id) && is_plain(member_id) && !group_id.contains('/')
                    && location@ == #[trigger] document_path(
                    self.identity.cluster@,
                    group_id,
                    member_id,
                ) ==> (found matches Some(ids) && ids.0@ == group_id && ids.1@ == member_id),
    {
        proof {
            assert forall|group_id: Seq<char>, member_id: Seq<char>|
                root@.len() > 0 && is_plain(group_id) && !group_id.contains('/') && location@
                    == #[trigger] document_path(self.identity.cluster@, group_id, member_id)
                    && root@ == consumer_tree(self.identity.cluster@) implies named_by(
                root@,
                location@,
            ) == Some((group_id, member_id)) by {
                assert forall|i: int| 0 <= i < group_id.len() implies #[trigger] group_id[i]
                    != '/' by {
                    assert(group_id.contains(group_id[i]));
                }
                a_location_names_its_member(root@, group_id, member_id);
            }
            lemma_consumers(self.identity.cluster@);
        }
        let names = match prefix_parts(location, root) {
            Some(names) => names,
            None => {
                return None;
            },
        };
        let ghost all = texts_view(names@);
        if names.len() < 2 {
            return None;
        }
        let group_id = names[0].clone();
        assert(all[0] == group_id@);
        assert(all[1] == names@[1]@);
        if !names[1].same(&String::from_str("members")) {
            return None;
        }
        let name = join_from(&names, 2);
        let member_id = match strip_suffix(name.as_str(), ".json") {
            Some(member_id) => member_id,
            None => {
                return None;
            },
        };
        match self.group_member_location(group_id.as_str(), member_id.as_str()) {
            Some(rebuilt) => {
                if rebuilt.same(&String::from_str(location)) {
                    Some((group_id, member_id))
                } else {
                    None
                }
            },
            None => None,
        }
    }
}

/// The group that an object under a root is of: the part that follows the root, or,
/// of an object directly under the root, its name without the extension.
pub open spec fn owner_of(root: Seq<char>, location: Seq<char>) -> Option<Seq<char>> {
    match parts_under(location, root) {
        Some(names) => if names.len() == 0 {
            None
        } else if names.len() > 1 {
            if names[0].len() == 0 {
                None
            } else {
                Some(names[0])
            }
        } else if ends_with_text(names[0], ".json"@) && names[0].len() > ".json"@.len() {
            Some(names[0].subrange(0, names[0].len() - ".json"@.len()))
        } else {
            None
        },
        None => None,
    }
}

/// The group and member that a location names, before it is held against where
/// their document would lie.
pub open spec fn named_by(root: Seq<char>, location: Seq<char>) -> Option<(Seq<char>, Seq<char>)> {
    match parts_under(location, root) {
        Some(names) => if names.len() < 2 || names[1] != "members"@ {
            None
        } else {
            let name = joined(names.skip(2));
            if ends_with_text(name, ".json"@) {
                Some((names[0], name.subrange(0, name.len() - ".json"@.len())))
            } else {
                None
            }
        },
        None => None,
    }
}

/// The group and member whose document lies at a location.
pub open spec fn document_of(cluster: Seq<char>, root: Seq<char>, location: Seq<char>) -> Option<
    (Seq<char>, Seq<char>),
> {
    match named_by(root, location) {
        Some((group_id, member_id)) => if member_path(cluster, group_id, member_id) == Some(
            location,
        ) {
            Some((group_id, member_id))
        } else {
            None
        },
        None => None,
    }
}

/// A document that is judged lies where the document of the group and the member
/// that it is held to be of lies.
pub proof fn what_is_judged_leads_back(cluster: Seq<char>, root: Seq<char>, location: Seq<char>)
    requires
        document_of(cluster, root, location) is Some,
    ensures
        ({
            let (group_id, member_id) = document_of(cluster, root, location)->0;
            member_path(cluster, group_id, member_id) == Some(location)
        }),
{
}

/// Whether the root of the groups is a path that holds as it is what the cluster is
/// called, so that a path below it begins with it. Where it is not, no document leads
/// back: every path that is made of another is encoded again.
pub open spec fn is_settled(cluster: Seq<char>) -> bool {
    path_of(path_of(consumers(cluster))) == path_of(consumers(cluster))
}

/// The root of a cluster whose name is held as it is is settled.
pub proof fn plain_clusters_are_settled(cluster: Seq<char>)
    requires
        is_plain(cluster),
    ensures
        is_settled(cluster),
{
    let tree = consumer_tree(cluster);
    lemma_consumers(cluster);
    lemma_stem(tree, seq!['/']);
    lemma_plain_stem(tree);
    a_plain_text_is_its_own_path(consumers(cluster));
    a_plain_text_is_its_own_path(tree);
}

proof fn lemma_root(cluster: Seq<char>)
    ensures
        path_of(consumer_tree(cluster)) == path_of(consumers(cluster)),
        path_of(consumers(cluster)).len() > 0,
{
    reveal_strlit("clusters/");
    reveal_strlit("/groups/consumers/");
    reveal_strlit("/groups/consumers");
    let tree = consumer_tree(cluster);
    let none = Seq::<char>::empty();
    lemma_consumers(cluster);
    assert(consumers(cluster) =~= tree + seq!['/'] + none);
    lemma_names_join(tree, none);
    assert(names_of(consumers(cluster)) =~= names_of(tree));
    let above = "clusters/"@ + cluster;
    let tail = seq![
        'g',
        'r',
        'o',
        'u',
        'p',
        's',
        '/',
        'c',
        'o',
        'n',
        's',
        'u',
        'm',
        'e',
        'r',
        's',
    ];
    assert(is_plain(tail));
    assert(tree =~= above + seq!['/'] + tail);
    lemma_below(above, tail);
}

proof fn lemma_below_root(root: Seq<char>, name: Seq<char>)
    requires
        root.len() > 0,
        path_of(root) == root,
        is_plain(name),
    ensures
        path_of(root + seq!['/'] + name) == root + seq!['/'] + name,
{
    lemma_below(root, name);
    if names_of(root).len() == 0 {
        assert(path_of(root).len() == 0);
    }
}

/// The documents of members whose ids are held as they are lead back to the members.
pub proof fn member_documents_lead_back(
    cluster: Seq<char>,
    group_id: Seq<char>,
    member_id: Seq<char>,
)
    requires
        is_settled(cluster),
        is_name(group_id),
        is_plain(member_id),
    ensures
        member_path(cluster, group_id, member_id) is Some,
        document_of(
            cluster,
            path_of(consumers(cluster)),
            member_path(cluster, group_id, member_id)->0,
        ) == Some((group_id, member_id)),
{
    reveal_strlit("/");
    reveal_strlit("/members");
    reveal_strlit("/members/");
    reveal_strlit("/.json");
    reveal_strlit(".json");
    assert("/"@ =~= seq!['/']);
    let tree = consumer_tree(cluster);
    let root = path_of(consumers(cluster));
    lemma_consumers(cluster);
    lemma_root(cluster);
    // The group's prefix.
    assert(consumers(cluster) + group_id =~= tree + seq!['/'] + group_id);
    lemma_below(tree, group_id);
    if names_of(tree).len() == 0 {
        assert(path_of(tree).len() == 0);
    }
    let prefix = root + seq!['/'] + group_id;
    assert(prefix_of(cluster, group_id) == Some(prefix));
    // The prefix of its members.
    let members = seq!['m', 'e', 'm', 'b', 'e', 'r', 's'];
    assert(is_plain(members));
    let within = group_id + seq!['/'] + members;
    lemma_plain_join(group_id, members);
    assert(prefix + "/members"@ =~= root + seq!['/'] + within);
    lemma_below_root(root, within);
    let all = root + seq!['/'] + within;
    assert(under_prefix(cluster, group_id, "/members"@) == Some(all));
    // The document, and what an id without a name would be.
    let name = member_id + ".json"@;
    let bare = seq!['.', 'j', 's', 'o', 'n'];
    lemma_document_name(member_id);
    assert(is_plain(bare));
    lemma_plain_join(within, name);
    lemma_plain_join(within, bare);
    lemma_below_root(root, within + seq!['/'] + name);
    lemma_below_root(root, within + seq!['/'] + bare);
    let location = root + "/"@ + group_id + "/members/"@ + member_id + ".json"@;
    assert(all + "/"@ + member_id + ".json"@ =~= root + seq!['/'] + (within + seq!['/'] + name));
    assert(all + "/"@ + member_id + ".json"@ =~= location);
    assert(all + "/.json"@ =~= root + seq!['/'] + (within + seq!['/'] + bare));
    assert((all + "/.json"@).len() != location.len());
    assert(member_path(cluster, group_id, member_id) == Some(location));
    assert forall|i: int| 0 <= i < group_id.len() implies #[trigger] group_id[i] != '/' by {
        assert(group_id.contains(group_id[i]));
    }
    a_location_names_its_member(root, group_id, member_id);
}

/// What does not lie where the documents of members do, or has not their extension, is
/// not judged.
pub proof fn only_member_documents_are_judged(
    cluster: Seq<char>,
    root: Seq<char>,
    location: Seq<char>,
)
    requires
        match parts_under(location, root) {
            Some(names) => names.len() < 2 || names[1] != "members"@ || !ends_with_text(
                joined(names.skip(2)),
                ".json"@,
            ),
            None => true,
        },
    ensures
        document_of(cluster, root, location) is None,
{
}

/// A location names the group and the member that it was made of, where the group's
/// id is one part.
pub proof fn a_location_names_its_member(root: Seq<char>, group_id: Seq<char>, member_id: Seq<char>)
    requires
        root.len() > 0,
        group_id.len() > 0,
        forall|i: int| 0 <= i < group_id.len() ==> #[trigger] group_id[i] != '/',
    ensures
        named_by(root, root + "/"@ + group_id + "/members/"@ + member_id + ".json"@) == Some(
            (group_id, member_id),
        ),
        owner_of(root, root + "/"@ + group_id + "/members/"@ + member_id + ".json"@) == Some(
            group_id,
        ),
{
    reveal_strlit("/");
    reveal_strlit("/members/");
    reveal_strlit("members");
    reveal_strlit(".json");
    let location = root + "/"@ + group_id + "/members/"@ + member_id + ".json"@;
    let name = member_id + ".json"@;
    let below = "members"@ + seq!['/'] + name;
    let rest = group_id + seq!['/'] + below;
    assert(location.take(root.len() as int) =~= root);
    assert(location.skip(root.len() as int) =~= seq!['/'] + rest);
    assert((seq!['/'] + rest).skip(1) =~= rest);
    lemma_first_part(group_id, below);
    lemma_first_part("members"@, name);
    let names = parts_of(rest);
    assert(names =~= seq![group_id, "members"@] + parts_of(name));
    assert(names.skip(2) =~= parts_of(name));
    assert(name.last() == 'n');
    joining_undoes_parting(name);
    assert(ends_with_text(name, ".json"@)) by {
        assert(name.subrange(name.len() - 5, name.len() as int) =~= ".json"@);
    }
    assert(name.subrange(0, name.len() - 5) =~= member_id);
}

/// Whatever lies under a group's own part is the group's, however deep and whatever it is
/// called; and a document directly under the root is that of the group that it is named
/// for.
pub proof fn everything_under_a_group_is_its_own(
    root: Seq<char>,
    group_id: Seq<char>,
    rest: Seq<char>,
)
    requires
        root.len() > 0,
        group_id.len() > 0,
        forall|i: int| 0 <= i < group_id.len() ==> #[trigger] group_id[i] != '/',
        rest.len() > 0,
        rest.last() != '/',
    ensures
        owner_of(root, root + "/"@ + group_id + "/"@ + rest) == Some(group_id),
        owner_of(root, root + "/"@ + group_id + ".json"@) == Some(group_id),
{
    reveal_strlit("/");
    reveal_strlit(".json");
    let location = root + "/"@ + group_id + "/"@ + rest;
    let below = group_id + seq!['/'] + rest;
    assert(location.take(root.len() as int) =~= root);
    assert(location.skip(root.len() as int) =~= seq!['/'] + below);
    assert((seq!['/'] + below).skip(1) =~= below);
    lemma_first_part(group_id, rest);
    let names = parts_of(below);
    assert(parts_of(rest).len() > 0);
    assert(names[0] == group_id);
    let name = group_id + ".json"@;
    let legacy = root + "/"@ + group_id + ".json"@;
    assert(legacy.take(root.len() as int) =~= root);
    assert(legacy.skip(root.len() as int) =~= seq!['/'] + name);
    assert((seq!['/'] + name).skip(1) =~= name);
    assert(!name.contains('/')) by {
        if name.contains('/') {
            let i = choose|i: int| 0 <= i < name.len() && name[i] == '/';
            if i < group_id.len() {
                assert(group_id[i] != '/');
            }
        }
    }
    lemma_last_part(Seq::empty(), name);
    assert(name.subrange(name.len() - 5, name.len() as int) =~= ".json"@);
    assert(name.subrange(0, name.len() - 5) =~= group_id);
}

} // verus!
