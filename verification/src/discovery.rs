//! Which networks and addresses to look at for a tuner or a speaker.
use crate::text::{
    before_last, begins_with, chars_of, contains, decimal, find_from, first_at, has_part,
    lemma_cut_at_last, lemma_first_at, lemma_prefixes_come_off, occurs, occurs_at, push_decimal,
    text_before_last, text_between, texts, trim, trim_prefixes, trimmed_end, trimmed_start,
    without_prefixes,
};
use vstd::prelude::*;
use vstd::slice::slice_subrange;
use vstd::string::StringExecFns;

verus! {

/// The network of an address: what stands before its last dot, and ".0".
pub open spec fn subnet_of(address: Seq<char>) -> Option<Seq<char>> {
    match text_before_last(address, '.') {
        Some(prefix) => Some(prefix + ".0"@),
        None => None,
    }
}

/// A list of networks with one more, unless it is there already.
pub open spec fn with_subnet(list: Seq<Seq<char>>, subnet: Seq<char>) -> Seq<Seq<char>> {
    if list.contains(subnet) {
        list
    } else {
        list.push(subnet)
    }
}

/// A list of networks with that of an address, where it has one.
pub open spec fn with_address(list: Seq<Seq<char>>, address: Seq<char>) -> Seq<Seq<char>> {
    match subnet_of(address) {
        Some(subnet) => with_subnet(list, subnet),
        None => list,
    }
}

/// A list of networks with those of some addresses.
pub open spec fn with_addresses(list: Seq<Seq<char>>, addresses: Seq<Seq<char>>) -> Seq<Seq<char>>
    decreases addresses.len(),
{
    if addresses.len() == 0 {
        list
    } else {
        with_address(with_addresses(list, addresses.drop_last()), addresses.last())
    }
}

/// A text up to the first slash.
pub open spec fn before_slash(s: Seq<char>) -> Seq<char> {
    match first_at(s, "/"@, 0) {
        Some(pos) => s.take(pos),
        None => s,
    }
}

/// The address in a line of the kernel's routing table, where it is a private
/// one. Such lines start with "|-- " or "+-- ".
pub open spec fn private_address(line: Seq<char>) -> Option<Seq<char>> {
    let entry = trimmed_end(trimmed_start(line));
    if begins_with(entry, "|-- "@) || begins_with(entry, "+-- "@) {
        let address = before_slash(
            without_prefixes(without_prefixes(entry, "|-- "@), "+-- "@),
        );
        if begins_with(address, "192.168."@) || begins_with(address, "10."@) || begins_with(
            address,
            "172."@,
        ) {
            Some(address)
        } else {
            None
        }
    } else {
        None
    }
}

/// A list of networks with that of a line of the routing table.
pub open spec fn with_line(list: Seq<Seq<char>>, line: Seq<char>) -> Seq<Seq<char>> {
    match private_address(line) {
        Some(address) => with_address(list, address),
        None => list,
    }
}

/// A list of networks with those of the routing table from `from` on. Lines
/// end at line feeds.
pub open spec fn with_table(list: Seq<Seq<char>>, table: Seq<char>, from: int) -> Seq<Seq<char>>
    decreases table.len() - from,
    when 0 <= from
    via with_table_ends
{
    match first_at(table, "\n"@, from) {
        Some(pos) => with_table(
            with_line(list, table.subrange(from, pos)),
            table,
            pos + 1,
        ),
        None => if from <= table.len() {
            with_line(list, table.skip(from))
        } else {
            list
        },
    }
}

#[via_fn]
proof fn with_table_ends(list: Seq<Seq<char>>, table: Seq<char>, from: int) {
    reveal_strlit("\n");
    lemma_first_at(table, "\n"@, from);
}

/// The networks of this host: those of its own addresses, those of the routing
/// table where it can be read, and the most common one where there are none.
pub open spec fn local_subnets(addresses: Seq<Seq<char>>, table: Option<Seq<char>>) -> Seq<
    Seq<char>,
> {
    let own = with_addresses(Seq::empty(), addresses);
    let all = match table {
        Some(t) => with_table(own, t, 0),
        None => own,
    };
    if all.len() == 0 {
        seq!["192.168.1.0"@]
    } else {
        all
    }
}

/// Adds a network, unless it is there already.
fn add_subnet(list: &mut Vec<String>, subnet: String)
    ensures
        texts(final(list)@) == with_subnet(texts(old(list)@), subnet@),
{
    let mut i: usize = 0;
    while i < list.len()
        invariant
            *list == *old(list),
            forall|k: int| 0 <= k < i ==> texts(list@)[k] != subnet@,
        decreases list@.len() - i,
    {
        if list[i] == subnet {
            assert(texts(list@)[i as int] == subnet@);
            return;
        }
        i += 1;
    }
    assert(!texts(list@).contains(subnet@));
    list.push(subnet);
    assert(texts(list@) =~= texts(old(list)@).push(subnet@));
}

/// Adds the network of an address, where it has one.
fn add_address(list: &mut Vec<String>, address: &[char])
    ensures
        texts(final(list)@) == with_address(texts(old(list)@), address@),
{
    match before_last(address, '.') {
        Some(prefix) => {
            let mut subnet: String = text_between(prefix, 0, prefix.len());
            assert(subnet@ =~= prefix@);
            subnet.append(".0");
            add_subnet(list, subnet);
        },
        None => {},
    }
}

/// Adds the network of a line of the routing table.
fn add_line(list: &mut Vec<String>, line: &[char])
    ensures
        texts(final(list)@) == with_line(texts(old(list)@), line@),
{
    let entry: &[char] = trim(line);
    if begins(entry, "|-- ") || begins(entry, "+-- ") {
        let rest: &[char] = trim_prefixes(trim_prefixes(entry, "|-- "), "+-- ");
        let address: &[char] = match find_from(rest, chars_of("/").as_slice(), 0) {
            Some(pos) => slice_subrange(rest, 0, pos),
            None => rest,
        };
        assert(address@ =~= before_slash(rest@));
        if begins(address, "192.168.") || begins(address, "10.") || begins(address, "172.") {
            add_address(list, address);
        }
    }
}

fn begins(s: &[char], prefix: &str) -> (r: bool)
    ensures
        r == begins_with(s@, prefix@),
{
    occurs(s, chars_of(prefix).as_slice(), 0)
}

/// The networks of this host, from its own addresses and the kernel's routing
/// table.
pub fn subnets_from(addresses: &Vec<String>, table: Option<&str>) -> (r: Vec<String>)
    ensures
        texts(r@) == local_subnets(
            texts(addresses@),
            match table {
                Some(t) => Some(t@),
                None => None,
            },
        ),
{
    let mut list: Vec<String> = Vec::new();
    let ghost all = texts(addresses@);
    let mut i: usize = 0;
    assert(texts(list@) =~= Seq::empty());
    while i < addresses.len()
        invariant
            i <= addresses@.len(),
            all == texts(addresses@),
            texts(list@) == with_addresses(Seq::empty(), all.take(i as int)),
        decreases addresses@.len() - i,
    {
        add_address(&mut list, chars_of(addresses[i].as_str()).as_slice());
        i += 1;
        assert(all.take(i as int).drop_last() =~= all.take(i - 1));
    }
    assert(all.take(i as int) =~= all);
    match table {
        Some(t) => add_table(&mut list, t),
        None => {},
    }
    if list.len() == 0 {
        list.push("192.168.1.0".to_owned());
        assert(texts(list@) =~= seq!["192.168.1.0"@]);
    } else {
        assert(texts(list@).len() > 0);
    }
    list
}

/// Adds the networks of the routing table.
fn add_table(list: &mut Vec<String>, table: &str)
    ensures
        texts(final(list)@) == with_table(texts(old(list)@), table@, 0),
{
    let chars: Vec<char> = chars_of(table);
    let feed: Vec<char> = chars_of("\n");
    let ghost start = texts(list@);
    let mut from: usize = 0;
    proof {
        reveal_strlit("\n");
    }
    loop
        invariant
            from <= chars@.len(),
            start == texts(old(list)@),
            chars@ == table@,
            feed@ == "\n"@,
            feed@.len() == 1,
            with_table(start, table@, 0) == with_table(texts(list@), table@, from as int),
        decreases chars@.len() - from,
    {
        match find_from(chars.as_slice(), feed.as_slice(), from) {
            Some(pos) => {
                add_line(list, slice_subrange(chars.as_slice(), from, pos));
                from = pos + 1;
            },
            None => {
                let line: &[char] = slice_subrange(chars.as_slice(), from, chars.len());
                assert(line@ =~= table@.skip(from as int));
                add_line(list, line);
                return;
            },
        }
    }
}

/// What stands before the last dot of a network, or all of it.
pub open spec fn host_prefix(subnet: Seq<char>) -> Seq<char> {
    match text_before_last(subnet, '.') {
        Some(prefix) => prefix,
        None => subnet,
    }
}

/// The first `n` addresses of a network.
pub open spec fn first_hosts(subnet: Seq<char>, n: nat) -> Seq<Seq<char>> {
    Seq::new(n, |i: int| host_prefix(subnet) + "."@ + decimal((i + 1) as nat))
}

/// All addresses to look at: 254 for each network, in order.
pub open spec fn all_hosts(subnets: Seq<Seq<char>>) -> Seq<Seq<char>>
    decreases subnets.len(),
{
    if subnets.len() == 0 {
        Seq::empty()
    } else {
        all_hosts(subnets.drop_last()) + first_hosts(subnets.last(), 254)
    }
}

/// The addresses to look at.
pub fn hosts_in(subnets: &Vec<String>) -> (r: Vec<String>)
    ensures
        texts(r@) == all_hosts(texts(subnets@)),
{
    let mut list: Vec<String> = Vec::new();
    let ghost all = texts(subnets@);
    let mut i: usize = 0;
    assert(texts(list@) =~= Seq::empty());
    while i < subnets.len()
        invariant
            i <= subnets@.len(),
            all == texts(subnets@),
            texts(list@) == all_hosts(all.take(i as int)),
        decreases subnets@.len() - i,
    {
        add_hosts(&mut list, subnets[i].as_str());
        i += 1;
        assert(all.take(i as int).drop_last() =~= all.take(i - 1));
    }
    assert(all.take(i as int) =~= all);
    list
}

/// Adds the addresses of one network.
fn add_hosts(list: &mut Vec<String>, subnet: &str)
    ensures
        texts(final(list)@) == texts(old(list)@) + first_hosts(subnet@, 254),
{
    let chars: Vec<char> = chars_of(subnet);
    let prefix: String = match before_last(chars.as_slice(), '.') {
        Some(head) => text_between(head, 0, head.len()),
        None => subnet.to_owned(),
    };
    assert(prefix@ =~= host_prefix(subnet@));
    let mut n: u64 = 0;
    assert(texts(list@) =~= texts(old(list)@) + first_hosts(subnet@, 0));
    while n < 254
        invariant
            n <= 254,
            prefix@ == host_prefix(subnet@),
            texts(list@) == texts(old(list)@) + first_hosts(subnet@, n as nat),
        decreases 254 - n,
    {
        let ghost before = list@;
        let mut host: String = prefix.clone();
        host.append(".");
        push_decimal(&mut host, n + 1);
        let ghost host_text = host@;
        list.push(host);
        n += 1;
        proof {
            assert(texts(list@) =~= texts(before).push(host_text));
            assert(first_hosts(subnet@, n as nat) =~= first_hosts(subnet@, (n - 1) as nat).push(
                host_text,
            ));
            assert(texts(list@) =~= texts(old(list)@) + first_hosts(subnet@, n as nat));
        }
    }
}

/// An address with a port.
pub fn socket_text(host: &str, port: u16) -> (r: String)
    ensures
        r@ == host@ + ":"@ + decimal(port as nat),
{
    let mut out: String = host.to_owned();
    out.append(":");
    push_decimal(&mut out, port as u64);
    out
}

/// The address in the output of `ping`: what stands between the first opening
/// bracket and the next closing one.
pub open spec fn ping_address(output: Seq<char>) -> Option<Seq<char>> {
    match first_at(output, "("@, 0) {
        Some(open) => match first_at(output, ")"@, open + 1) {
            Some(close) => Some(output.subrange(open + 1, close)),
            None => None,
        },
        None => None,
    }
}

/// Reads the address out of the output of `ping`.
pub fn read_ping_address(output: &str) -> (r: Option<String>)
    ensures
        match r {
            Some(address) => ping_address(output@) == Some(address@),
            None => ping_address(output@) is None,
        },
{
    proof {
        reveal_strlit("(");
    }
    let chars: Vec<char> = chars_of(output);
    assert(chars@.len() == chars.len());
    match find_from(chars.as_slice(), chars_of("(").as_slice(), 0) {
        Some(open) => match find_from(chars.as_slice(), chars_of(")").as_slice(), open + 1) {
            Some(close) => Some(text_between(chars.as_slice(), open + 1, close)),
            None => None,
        },
        None => None,
    }
}

/// Where a tuner describes itself.
pub fn description_url(host: &str) -> (r: String)
    ensures
        r@ == "http://"@ + host@ + "/discover.json"@,
{
    let mut url: String = "http://".to_owned();
    url.append(host);
    url.append("/discover.json");
    url
}

/// Whether a description is that of a tuner.
pub fn describes_tuner(body: &str) -> (r: bool)
    ensures
        r == has_part(body@, "DeviceID"@),
{
    contains(body, "DeviceID")
}

/// The first of some answers, in order.
pub open spec fn first_answer(answers: Seq<Option<String>>, from: int) -> Option<Seq<char>>
    decreases answers.len() - from,
{
    if from >= answers.len() {
        None
    } else {
        match answers[from] {
            Some(host) => Some(host@),
            None => first_answer(answers, from + 1),
        }
    }
}

/// The first address that answered.
pub fn first_found(answers: &Vec<Option<String>>) -> (r: Option<String>)
    ensures
        match r {
            Some(host) => first_answer(answers@, 0) == Some(host@),
            None => first_answer(answers@, 0) is None,
        },
{
    let mut i: usize = 0;
    while i < answers.len()
        invariant
            first_answer(answers@, 0) == first_answer(answers@, i as int),
        decreases answers@.len() - i,
    {
        match &answers[i] {
            Some(host) => {
                return Some(host.clone());
            },
            None => {},
        }
        i += 1;
    }
    None
}

/// There is always a network to look at, and none is looked at twice.
pub proof fn lemma_subnets_are_distinct(addresses: Seq<Seq<char>>, table: Option<Seq<char>>)
    ensures
        local_subnets(addresses, table).len() > 0,
        local_subnets(addresses, table).no_duplicates(),
{
    lemma_addresses_keep_distinct(Seq::empty(), addresses);
    if table is Some {
        lemma_table_keeps_distinct(with_addresses(Seq::empty(), addresses), table->Some_0, 0);
    }
}

proof fn lemma_addresses_keep_distinct(list: Seq<Seq<char>>, addresses: Seq<Seq<char>>)
    requires
        list.no_duplicates(),
    ensures
        with_addresses(list, addresses).no_duplicates(),
    decreases addresses.len(),
{
    if addresses.len() > 0 {
        lemma_addresses_keep_distinct(list, addresses.drop_last());
    }
}

proof fn lemma_table_keeps_distinct(list: Seq<Seq<char>>, table: Seq<char>, from: int)
    requires
        list.no_duplicates(),
        0 <= from,
    ensures
        with_table(list, table, from).no_duplicates(),
    decreases table.len() - from,
{
    reveal_strlit("\n");
    lemma_first_at(table, "\n"@, from);
    match first_at(table, "\n"@, from) {
        Some(pos) => {
            lemma_table_keeps_distinct(
                with_line(list, table.subrange(from, pos)),
                table,
                pos + 1,
            );
        },
        None => {},
    }
}

/// Each network gives 254 addresses.
pub proof fn lemma_host_count(subnets: Seq<Seq<char>>)
    ensures
        all_hosts(subnets).len() == 254 * subnets.len(),
    decreases subnets.len(),
{
    if subnets.len() > 0 {
        lemma_host_count(subnets.drop_last());
    }
}

/// The network of an address is what stands before its last dot, with ".0"
/// behind it; what has no dot has none.
#[verifier::spinoff_prover]
#[verifier::rlimit(60)]
pub proof fn lemma_network_of_address(head: Seq<char>, last: Seq<char>)
    requires
        forall|i: int| 0 <= i < last.len() ==> #[trigger] last[i] != '.',
    ensures
        subnet_of(head + seq!['.'] + last) == Some(head + seq!['.', '0']),
        host_prefix(head + seq!['.'] + last) == head,
        subnet_of(last) is None,
        host_prefix(last) == last,
{
    reveal_strlit(".0");
    let all = head + seq!['.'] + last;
    lemma_cut_at_last(all, '.');
    lemma_cut_at_last(last, '.');
    let n = head.len() as int;
    assert(all[n] == '.');
    match text_before_last(all, '.') {
        Some(prefix) => {
            if prefix.len() > n {
                assert(all[prefix.len() as int] == last[prefix.len() - n - 1]);
            }
            assert(prefix.len() == n);
            assert(prefix =~= head);
            assert(prefix + ".0"@ =~= head + seq!['.', '0']);
        },
        None => {},
    }
}

/// The addresses looked at in a network are its own, with 1 to 254 behind the
/// last dot; networks are looked at in order.
pub proof fn lemma_hosts_of_network(subnets: Seq<Seq<char>>, k: int, j: int)
    requires
        0 <= k < subnets.len(),
        1 <= j <= 254,
    ensures
        all_hosts(subnets).len() == 254 * subnets.len(),
        all_hosts(subnets)[254 * k + j - 1] == host_prefix(subnets[k]) + seq!['.'] + decimal(
            j as nat,
        ),
    decreases subnets.len(),
{
    reveal_strlit(".");
    assert("."@ =~= seq!['.']);
    lemma_host_count(subnets);
    let fewer = subnets.drop_last();
    lemma_host_count(fewer);
    if k < fewer.len() {
        lemma_hosts_of_network(fewer, k, j);
        assert(all_hosts(subnets)[254 * k + j - 1] == all_hosts(fewer)[254 * k + j - 1]);
    } else {
        assert(all_hosts(subnets)[254 * k + j - 1] == first_hosts(subnets.last(), 254)[j - 1]);
    }
}

proof fn lemma_address_is_added(list: Seq<Seq<char>>, address: Seq<char>, subnet: Seq<char>)
    ensures
        list.contains(subnet) ==> with_address(list, address).contains(subnet),
        subnet_of(address) == Some(subnet) ==> with_address(list, address).contains(subnet),
        with_address(list, address).contains(subnet) ==> list.contains(subnet) || subnet_of(
            address,
        ) == Some(subnet),
{
    match subnet_of(address) {
        Some(own) => {
            let more = list.push(own);
            assert(more[list.len() as int] == own);
            if list.contains(subnet) {
                let i = list.index_of(subnet);
                assert(more[i] == subnet);
            }
        },
        None => {},
    }
}

proof fn lemma_addresses_are_added(addresses: Seq<Seq<char>>, subnet: Seq<char>)
    ensures
        with_addresses(Seq::empty(), addresses).contains(subnet) <==> exists|i: int|
            0 <= i < addresses.len() && subnet_of(#[trigger] addresses[i]) == Some(subnet),
    decreases addresses.len(),
{
    if addresses.len() > 0 {
        let fewer = addresses.drop_last();
        let n = addresses.len() - 1;
        lemma_addresses_are_added(fewer, subnet);
        lemma_address_is_added(with_addresses(Seq::empty(), fewer), addresses[n], subnet);
        if exists|i: int|
            0 <= i < addresses.len() && subnet_of(#[trigger] addresses[i]) == Some(subnet) {
            let i = choose|i: int|
                0 <= i < addresses.len() && subnet_of(#[trigger] addresses[i]) == Some(subnet);
            if i < n {
                assert(fewer[i] == addresses[i]);
            }
        }
        if exists|i: int| 0 <= i < fewer.len() && subnet_of(#[trigger] fewer[i]) == Some(subnet) {
            let i = choose|i: int|
                0 <= i < fewer.len() && subnet_of(#[trigger] fewer[i]) == Some(subnet);
            assert(addresses[i] == fewer[i]);
        }
    }
}

proof fn lemma_table_only_adds(list: Seq<Seq<char>>, table: Seq<char>, from: int, subnet: Seq<char>)
    requires
        0 <= from,
        list.contains(subnet),
    ensures
        with_table(list, table, from).contains(subnet),
    decreases table.len() - from,
{
    reveal_strlit("\n");
    lemma_first_at(table, "\n"@, from);
    match first_at(table, "\n"@, from) {
        Some(pos) => {
            let line = table.subrange(from, pos);
            lemma_line_only_adds(list, line, subnet);
            lemma_table_only_adds(with_line(list, line), table, pos + 1, subnet);
        },
        None => {
            lemma_line_only_adds(list, table.skip(from), subnet);
        },
    }
}

proof fn lemma_line_only_adds(list: Seq<Seq<char>>, line: Seq<char>, subnet: Seq<char>)
    requires
        list.contains(subnet),
    ensures
        with_line(list, line).contains(subnet),
{
    match private_address(line) {
        Some(address) => {
            lemma_address_is_added(list, address, subnet);
        },
        None => {},
    }
}

/// The network of every address of this host is looked at. Without a routing
/// table no other is, but for 192.168.1.0 where there is none at all.
pub proof fn lemma_own_networks_are_looked_at(
    addresses: Seq<Seq<char>>,
    table: Option<Seq<char>>,
    subnet: Seq<char>,
)
    ensures
        (exists|i: int|
            0 <= i < addresses.len() && subnet_of(#[trigger] addresses[i]) == Some(subnet))
            ==> local_subnets(addresses, table).contains(subnet),
        table is None && local_subnets(addresses, table).contains(subnet) ==> (exists|i: int|
            0 <= i < addresses.len() && subnet_of(#[trigger] addresses[i]) == Some(subnet))
            || subnet == "192.168.1.0"@,
        addresses.len() == 0 && table is None ==> local_subnets(addresses, table) == seq![
            "192.168.1.0"@,
        ],
{
    lemma_addresses_are_added(addresses, subnet);
    let own = with_addresses(Seq::empty(), addresses);
    if own.contains(subnet) {
        if let Some(t) = table {
            lemma_table_only_adds(own, t, 0, subnet);
        }
    }
}

proof fn lemma_line_adds_network(
    list: Seq<Seq<char>>,
    line: Seq<char>,
    address: Seq<char>,
    subnet: Seq<char>,
)
    requires
        private_address(line) == Some(address),
        subnet_of(address) == Some(subnet),
    ensures
        with_line(list, line).contains(subnet),
{
    lemma_address_is_added(list, address, subnet);
}

/// The network of every private address in a line of the routing table is
/// looked at.
pub proof fn lemma_routes_are_looked_at(
    addresses: Seq<Seq<char>>,
    before: Seq<char>,
    line: Seq<char>,
    after: Seq<char>,
    address: Seq<char>,
    subnet: Seq<char>,
)
    requires
        before.len() == 0 || before.last() == '\n',
        after.len() == 0 || after[0] == '\n',
        forall|i: int| 0 <= i < line.len() ==> #[trigger] line[i] != '\n',
        private_address(line) == Some(address),
        subnet_of(address) == Some(subnet),
    ensures
        local_subnets(addresses, Some(before + line + after)).contains(subnet),
{
    let own = with_addresses(Seq::empty(), addresses);
    lemma_table_reaches_line(own, before + line + after, 0, before, line, after, address, subnet);
}

#[verifier::spinoff_prover]
#[verifier::rlimit(60)]
proof fn lemma_table_reaches_line(
    list: Seq<Seq<char>>,
    table: Seq<char>,
    from: int,
    before: Seq<char>,
    line: Seq<char>,
    after: Seq<char>,
    address: Seq<char>,
    subnet: Seq<char>,
)
    requires
        table == before + line + after,
        0 <= from <= before.len(),
        before.len() == 0 || before.last() == '\n',
        after.len() == 0 || after[0] == '\n',
        forall|i: int| 0 <= i < line.len() ==> #[trigger] line[i] != '\n',
        private_address(line) == Some(address),
        subnet_of(address) == Some(subnet),
    ensures
        with_table(list, table, from).contains(subnet),
    decreases before.len() - from,
{
    reveal_strlit("\n");
    let feed = "\n"@;
    let b = before.len() as int;
    let e = b + line.len();
    lemma_first_at(table, feed, from);
    if from < b {
        assert(table.subrange(b - 1, b)[0] == '\n');
        assert(table.subrange(b - 1, b) =~= feed);
        assert(occurs_at(table, feed, b - 1));
        match first_at(table, feed, from) {
            Some(pos) => {
                lemma_table_reaches_line(
                    with_line(list, table.subrange(from, pos)),
                    table,
                    pos + 1,
                    before,
                    line,
                    after,
                    address,
                    subnet,
                );
            },
            None => {},
        }
    } else {
        assert(table.subrange(b, e) =~= line);
        match first_at(table, feed, from) {
            Some(pos) => {
                assert(table.subrange(pos, pos + 1)[0] == table[pos]);
                if pos < e {
                    assert(table[pos] == line[pos - b]);
                }
                if pos > e {
                    assert(after.len() > 0);
                    assert(table[e] == after[0]);
                    assert(table.subrange(e, e + 1) =~= feed);
                    assert(occurs_at(table, feed, e));
                }
                assert(pos == e);
                lemma_line_adds_network(list, line, address, subnet);
                lemma_table_only_adds(with_line(list, line), table, pos + 1, subnet);
            },
            None => {
                if after.len() > 0 {
                    assert(table[e] == after[0]);
                    assert(table.subrange(e, e + 1) =~= feed);
                    assert(occurs_at(table, feed, e));
                }
                assert(table.skip(from) =~= line);
                lemma_line_adds_network(list, line, address, subnet);
            },
        }
    }
}

/// The address in a line of the routing table stands behind its mark, up to the
/// slash before the length of its prefix, and counts where it is a private one.
/// Lines without a mark have none.
#[verifier::spinoff_prover]
#[verifier::rlimit(60)]
pub proof fn lemma_route_is_read(
    line: Seq<char>,
    mark: Seq<char>,
    address: Seq<char>,
    tail: Seq<char>,
)
    requires
        mark == seq!['|', '-', '-', ' '] || mark == seq!['+', '-', '-', ' '],
        tail.len() == 0 || tail[0] == '/',
        forall|i: int| 0 <= i < address.len() ==> #[trigger] address[i] != '/',
        address.len() > 0,
        address[0] != '|' && address[0] != '+',
        trimmed_end(trimmed_start(line)) == mark + address + tail,
    ensures
        private_address(line) == if "192.168."@.is_prefix_of(address) || "10."@.is_prefix_of(
            address,
        ) || "172."@.is_prefix_of(address) {
            Some(address)
        } else {
            None
        },
{
    reveal_strlit("|-- ");
    reveal_strlit("+-- ");
    reveal_strlit("/");
    let bar = "|-- "@;
    let plus = "+-- "@;
    assert(bar =~= seq!['|', '-', '-', ' ']);
    assert(plus =~= seq!['+', '-', '-', ' ']);
    let rest = address + tail;
    let entry = mark + address + tail;
    assert(entry =~= mark + rest);
    assert(entry.subrange(0, 4) =~= mark);
    assert(rest[0] == address[0]);
    assert(bar[0] == '|' && plus[0] == '+');
    assert(!bar.is_prefix_of(rest)) by {
        if bar.is_prefix_of(rest) {
            assert(rest.take(4)[0] == rest[0]);
        }
    }
    assert(!plus.is_prefix_of(rest)) by {
        if plus.is_prefix_of(rest) {
            assert(rest.take(4)[0] == rest[0]);
        }
    }
    lemma_prefixes_come_off(rest, bar);
    lemma_prefixes_come_off(rest, plus);
    if mark == plus {
        assert(!bar.is_prefix_of(entry)) by {
            if bar.is_prefix_of(entry) {
                assert(entry.take(4)[0] == entry[0]);
            }
        }
        lemma_prefixes_come_off(entry, bar);
    }
    assert(without_prefixes(without_prefixes(entry, bar), plus) == rest);
    lemma_first_at(rest, "/"@, 0);
    let n = address.len() as int;
    if tail.len() > 0 {
        assert(rest[n] == '/');
        assert(rest.subrange(n, n + 1) =~= "/"@);
        assert(occurs_at(rest, "/"@, n));
    }
    match first_at(rest, "/"@, 0) {
        Some(pos) => {
            assert(rest.subrange(pos, pos + 1)[0] == rest[pos]);
            if pos < n {
                assert(rest[pos] == address[pos]);
            }
            assert(pos == n);
            assert(rest.take(n) =~= address);
        },
        None => {
            assert(rest =~= address);
        },
    }
    assert(before_slash(rest) == address);
    lemma_prefix_is_start(address, "192.168."@);
    lemma_prefix_is_start(address, "10."@);
    lemma_prefix_is_start(address, "172."@);
}

proof fn lemma_prefix_is_start(s: Seq<char>, prefix: Seq<char>)
    ensures
        begins_with(s, prefix) == prefix.is_prefix_of(s),
{
    if prefix.len() <= s.len() {
        assert(s.subrange(0, prefix.len() as int) =~= s.take(prefix.len() as int));
    }
}

/// The address that `ping` prints in brackets is read.
#[verifier::spinoff_prover]
#[verifier::rlimit(60)]
pub proof fn lemma_ping_is_read(before: Seq<char>, address: Seq<char>, after: Seq<char>)
    requires
        forall|i: int| 0 <= i < before.len() ==> #[trigger] before[i] != '(',
        forall|i: int| 0 <= i < address.len() ==> #[trigger] address[i] != ')',
    ensures
        ping_address(before + seq!['('] + address + seq![')'] + after) == Some(address),
        ping_address(before) is None,
{
    reveal_strlit("(");
    reveal_strlit(")");
    let all = before + seq!['('] + address + seq![')'] + after;
    let b = before.len() as int;
    let e = b + 1 + address.len();
    assert("("@ =~= seq!['(']);
    assert(")"@ =~= seq![')']);
    assert forall|i: int| 0 <= i < b implies #[trigger] all[i] != '(' by {
        assert(all[i] == before[i]);
    }
    assert forall|i: int| b + 1 <= i < e implies #[trigger] all[i] != ')' by {
        assert(all[i] == address[i - b - 1]);
    }
    lemma_first_char(all, '(', 0, b);
    lemma_first_char(all, ')', b + 1, e);
    lemma_first_char(before, '(', 0, b);
    assert(all.subrange(b + 1, e) =~= address);
}

/// A character is found at its first place.
proof fn lemma_first_char(s: Seq<char>, c: char, from: int, at: int)
    requires
        0 <= from <= at <= s.len(),
        forall|i: int| from <= i < at ==> #[trigger] s[i] != c,
        at < s.len() ==> s[at] == c,
    ensures
        first_at(s, seq![c], from) == if at < s.len() {
            Some(at)
        } else {
            None
        },
    decreases at - from,
{
    if from < s.len() {
        assert(s.subrange(from, from + 1)[0] == s[from]);
        if from == at {
            assert(s.subrange(from, from + 1) =~= seq![c]);
        } else {
            lemma_first_char(s, c, from + 1, at);
        }
    }
}

/// Of several answers the one that comes first in the list is taken, and there
/// is none only where nobody answered.
pub proof fn lemma_first_answer_is_first(answers: Seq<Option<String>>, from: int)
    requires
        0 <= from,
    ensures
        match first_answer(answers, from) {
            Some(host) => exists|i: int|
                #![trigger answers[i]]
                {
                    &&& from <= i < answers.len()
                    &&& answers[i] matches Some(h) && h@ == host
                    &&& forall|k: int| from <= k < i ==> #[trigger] answers[k] is None
                },
            None => forall|k: int| from <= k < answers.len() ==> #[trigger] answers[k] is None,
        },
    decreases answers.len() - from,
{
    if from < answers.len() && answers[from] is None {
        lemma_first_answer_is_first(answers, from + 1);
    }
}

proof fn lemma_address_goes_last(list: Seq<Seq<char>>, address: Seq<char>)
    ensures
        list.is_prefix_of(with_address(list, address)),
{
    let more = with_address(list, address);
    assert(list.len() <= more.len());
    assert(more.take(list.len() as int) =~= list);
}

proof fn lemma_prefix_chain(a: Seq<Seq<char>>, b: Seq<Seq<char>>, c: Seq<Seq<char>>)
    requires
        a.is_prefix_of(b),
        b.is_prefix_of(c),
    ensures
        a.is_prefix_of(c),
{
    assert(c.take(a.len() as int) =~= b.take(a.len() as int));
}

proof fn lemma_table_goes_last(list: Seq<Seq<char>>, table: Seq<char>, from: int)
    requires
        0 <= from,
    ensures
        list.is_prefix_of(with_table(list, table, from)),
    decreases table.len() - from,
{
    reveal_strlit("\n");
    lemma_first_at(table, "\n"@, from);
    assert(list.take(list.len() as int) =~= list);
    match first_at(table, "\n"@, from) {
        Some(pos) => {
            let line = table.subrange(from, pos);
            lemma_line_goes_last(list, line);
            lemma_table_goes_last(with_line(list, line), table, pos + 1);
            lemma_prefix_chain(
                list,
                with_line(list, line),
                with_table(with_line(list, line), table, pos + 1),
            );
        },
        None => {
            lemma_line_goes_last(list, table.skip(from));
        },
    }
}

proof fn lemma_line_goes_last(list: Seq<Seq<char>>, line: Seq<char>)
    ensures
        list.is_prefix_of(with_line(list, line)),
{
    assert(list.take(list.len() as int) =~= list);
    match private_address(line) {
        Some(address) => {
            lemma_address_goes_last(list, address);
        },
        None => {},
    }
}

/// Networks are looked at in the order in which they come: those of this host's
/// addresses before those of its routes, and one more address adds its network
/// behind the others.
pub proof fn lemma_networks_keep_their_order(
    addresses: Seq<Seq<char>>,
    more: Seq<char>,
    table: Option<Seq<char>>,
)
    requires
        exists|i: int| 0 <= i < addresses.len() && subnet_of(#[trigger] addresses[i]) is Some,
    ensures
        local_subnets(addresses, None).is_prefix_of(local_subnets(addresses, table)),
        local_subnets(addresses, None).is_prefix_of(local_subnets(addresses.push(more), None)),
{
    let own = with_addresses(Seq::empty(), addresses);
    let i = choose|i: int| 0 <= i < addresses.len() && subnet_of(#[trigger] addresses[i]) is Some;
    let subnet = subnet_of(addresses[i])->Some_0;
    lemma_addresses_are_added(addresses, subnet);
    assert(own.contains(subnet));
    assert(own.len() > 0);
    assert(own.take(own.len() as int) =~= own);
    if let Some(t) = table {
        lemma_table_goes_last(own, t, 0);
    }
    assert(addresses.push(more).drop_last() =~= addresses);
    lemma_address_goes_last(own, more);
}

} // verus!
