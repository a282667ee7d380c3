//! Anchors: a short name for every line of a file, no two alike.
use crate::hash::{four_char_hash, four_digits, hex_digit, law_hash_is_four_hex_digits, short_hash, xxh32_digest};
use crate::text::{decimal, push_decimal, texts, trimmed};
use vstd::hash_set::StringHashSet;
use vstd::prelude::*;
use vstd::utf8::encode_utf8;

verus! {

/// Salts that are tried for a line are below this number.
pub const SALT_LIMIT: usize = 0x7fff_ffff;

/// The anchor of a line that no other line resembles: the hash of the line without the white
/// space around it.
pub open spec fn plain_anchor(line: Seq<char>) -> Seq<char> {
    short_hash(encode_utf8(trimmed(line)))
}

/// What is hashed for the line at `index` under `salt`.
pub open spec fn salted_text(salt: nat, index: nat, line: Seq<char>) -> Seq<char> {
    decimal(salt).push('\0') + decimal(index).push('\0') + line
}

/// The anchor of the line at `index` under `salt`.
pub open spec fn salted_anchor(salt: nat, index: nat, line: Seq<char>) -> Seq<char> {
    short_hash(encode_utf8(salted_text(salt, index, line)))
}

/// Whether `salt` gives the line at `index` an anchor that is not in use.
pub open spec fn salt_is_free(used: Set<Seq<char>>, index: nat, line: Seq<char>, salt: nat) -> bool {
    salt < SALT_LIMIT && !used.contains(salted_anchor(salt, index, line))
}

/// Whether some salt gives the line at `index` an anchor that is not in use.
pub open spec fn has_free_salt(used: Set<Seq<char>>, index: nat, line: Seq<char>) -> bool {
    exists|salt: nat| salt_is_free(used, index, line, salt)
}

/// Whether `salt` is the smallest one that gives the line at `index` an anchor not in use.
pub open spec fn first_free_salt(used: Set<Seq<char>>, index: nat, line: Seq<char>, salt: nat) -> bool {
    &&& salt_is_free(used, index, line, salt)
    &&& forall|s: nat| s < salt ==> !salt_is_free(used, index, line, s)
}

/// The anchor that the smallest free salt gives the line at `index`.
pub open spec fn fresh_anchor(used: Set<Seq<char>>, index: nat, line: Seq<char>) -> Seq<char> {
    salted_anchor(choose|salt: nat| first_free_salt(used, index, line, salt), index, line)
}

/// Hashes a line together with its index and a salt.
fn salted_hash(salt: usize, index: usize, line: &str) -> (anchor: String)
    ensures
        anchor@ == salted_anchor(salt as nat, index as nat, line@),
{
    let mut text: String = String::new();
    push_decimal(&mut text, salt);
    text.push('\0');
    push_decimal(&mut text, index);
    text.push('\0');
    text.append(line);
    assert(text@ =~= salted_text(salt as nat, index as nat, line@));
    four_char_hash(text.as_str().as_bytes())
}

/// Takes the anchor that the smallest free salt gives the line at `index`.
pub fn unique_anchor(used: &mut StringHashSet, index: usize, line: &str) -> (anchor: String)
    requires
        has_free_salt(old(used)@, index as nat, line@),
    ensures
        anchor@ == fresh_anchor(old(used)@, index as nat, line@),
        !old(used)@.contains(anchor@),
        final(used)@ == old(used)@.insert(anchor@),
{
    let ghost before = used@;
    let mut salt: usize = 0;
    loop
        invariant
            used@ == before,
            before == old(used)@,
            has_free_salt(before, index as nat, line@),
            forall|s: nat| s < salt ==> !salt_is_free(before, index as nat, line@, s),
            salt <= SALT_LIMIT,
        decreases SALT_LIMIT - salt,
    {
        proof {
            let free = choose|s: nat| salt_is_free(before, index as nat, line@, s);
            assert(salt <= free);
        }
        let anchor: String = salted_hash(salt, index, line);
        if used.insert(anchor.clone()) {
            proof {
                assert(first_free_salt(before, index as nat, line@, salt as nat));
                lemma_first_free_salt(before, index as nat, line@, salt as nat);
            }
            return anchor;
        }
        assert(used@ =~= before);
        assert(!salt_is_free(before, index as nat, line@, salt as nat));
        salt += 1;
    }
}

/// The smallest free salt is the one that `fresh_anchor` uses.
proof fn lemma_first_free_salt(used: Set<Seq<char>>, index: nat, line: Seq<char>, salt: nat)
    requires
        first_free_salt(used, index, line, salt),
    ensures
        fresh_anchor(used, index, line) == salted_anchor(salt, index, line),
{
    let chosen = choose|s: nat| first_free_salt(used, index, line, s);
    assert(first_free_salt(used, index, line, chosen));
    if chosen < salt {
        assert(!salt_is_free(used, index, line, chosen));
    }
    if salt < chosen {
        assert(!salt_is_free(used, index, line, salt));
    }
}

/// Takes a fresh anchor for the line at `index`, or none where every salt gives one in use.
pub fn try_unique_anchor(used: &mut StringHashSet, index: usize, line: &str) -> (anchor: Option<String>)
    ensures
        anchor is Some <==> has_free_salt(old(used)@, index as nat, line@),
        anchor matches Some(a) ==> {
            &&& a@ == fresh_anchor(old(used)@, index as nat, line@)
            &&& !old(used)@.contains(a@)
            &&& final(used)@ == old(used)@.insert(a@)
        },
        anchor is None ==> final(used)@ == old(used)@,
{
    let mut salt: usize = 0;
    while salt < SALT_LIMIT
        invariant
            used@ == old(used)@,
            forall|s: nat| s < salt ==> !salt_is_free(used@, index as nat, line@, s),
            salt <= SALT_LIMIT,
        decreases SALT_LIMIT - salt,
    {
        let anchor: String = salted_hash(salt, index, line);
        if !used.contains(anchor.as_str()) {
            assert(salt_is_free(used@, index as nat, line@, salt as nat));
            return Some(unique_anchor(used, index, line));
        }
        assert(!salt_is_free(used@, index as nat, line@, salt as nat));
        salt += 1;
    }
    assert forall|s: nat| !salt_is_free(used@, index as nat, line@, s) by {
        if s < SALT_LIMIT {
            assert(s < salt);
        }
    }
    None
}

/// Whether no other line has the plain anchor of the line at `i`.
pub open spec fn is_lone(lines: Seq<Seq<char>>, i: int) -> bool {
    forall|j: int|
        0 <= j < lines.len() && j != i ==> plain_anchor(#[trigger] lines[j]) != plain_anchor(lines[i])
}

/// Whether the line behind those that have the anchors `given` gets its plain anchor.
pub open spec fn gets_plain(lines: Seq<Seq<char>>, given: Seq<Seq<char>>) -> bool {
    let i = given.len() as int;
    is_lone(lines, i) && !given.contains(plain_anchor(lines[i]))
}

/// The anchor of the line behind those that have the anchors `given`: the plain one where no
/// other line has it, else a fresh one. There is none where every salt gives an anchor in use.
pub open spec fn next_anchor(lines: Seq<Seq<char>>, given: Seq<Seq<char>>) -> Option<Seq<char>> {
    let i = given.len() as int;
    if gets_plain(lines, given) {
        Some(plain_anchor(lines[i]))
    } else if has_free_salt(given.to_set(), i as nat, lines[i]) {
        Some(fresh_anchor(given.to_set(), i as nat, lines[i]))
    } else {
        None
    }
}

/// The anchors of the first `n` lines, if each of them gets one.
pub open spec fn first_anchors(lines: Seq<Seq<char>>, n: nat) -> Option<Seq<Seq<char>>>
    decreases n,
{
    if n == 0 {
        Some(Seq::empty())
    } else {
        match first_anchors(lines, (n - 1) as nat) {
            None => None,
            Some(given) => match next_anchor(lines, given) {
                None => None,
                Some(anchor) => Some(given.push(anchor)),
            },
        }
    }
}

/// Whether each of the lines gets an anchor.
pub open spec fn anchorable(lines: Seq<Seq<char>>) -> bool {
    first_anchors(lines, lines.len()) is Some
}

/// The anchors of the lines, in their order.
pub open spec fn anchors_of(lines: Seq<Seq<char>>) -> Seq<Seq<char>> {
    first_anchors(lines, lines.len())->0
}

/// Where the first `n` lines get anchors, the first `m <= n` lines get the same.
pub proof fn lemma_first_anchors_prefix(lines: Seq<Seq<char>>, m: nat, n: nat)
    requires
        m <= n,
        first_anchors(lines, n) is Some,
    ensures
        first_anchors(lines, m) is Some,
        first_anchors(lines, n)->0.len() == n,
        first_anchors(lines, m)->0 == first_anchors(lines, n)->0.take(m as int),
    decreases n,
{
    if n > 0 {
        lemma_first_anchors_prefix(lines, if m == n { (n - 1) as nat } else { m }, (n - 1) as nat);
    }
    if m == n {
        assert(first_anchors(lines, n)->0 =~= first_anchors(lines, n)->0.take(m as int));
    } else {
        assert(first_anchors(lines, (n - 1) as nat)->0.take(m as int) =~= first_anchors(lines, n)->0.take(
            m as int,
        ));
    }
}

/// The first `n` lines get `n` anchors, no two alike, each the four-digit form of some number.
proof fn lemma_first_anchors(lines: Seq<Seq<char>>, n: nat)
    requires
        first_anchors(lines, n) is Some,
    ensures
        first_anchors(lines, n)->0.len() == n,
        first_anchors(lines, n)->0.no_duplicates(),
        forall|i: int|
            0 <= i < n ==> exists|bytes: Seq<u8>| #[trigger]
                first_anchors(lines, n)->0[i] == #[trigger] short_hash(bytes),
    decreases n,
{
    if n > 0 {
        lemma_first_anchors(lines, (n - 1) as nat);
        let given = first_anchors(lines, (n - 1) as nat)->0;
        let anchor = next_anchor(lines, given)->0;
        let i = given.len();
        if gets_plain(lines, given) {
            assert(anchor == short_hash(encode_utf8(trimmed(lines[i as int]))));
        } else {
            let used = given.to_set();
            lemma_free_salt_least(used, i, lines[i as int]);
            let salt = choose|salt: nat| first_free_salt(used, i, lines[i as int], salt);
            assert(anchor == short_hash(encode_utf8(salted_text(salt, i, lines[i as int]))));
            assert(!used.contains(anchor));
        }
        assert(!given.contains(anchor));
    }
}

/// Where a salt is free there is a smallest one.
proof fn lemma_free_salt_least(used: Set<Seq<char>>, index: nat, line: Seq<char>)
    requires
        has_free_salt(used, index, line),
    ensures
        exists|salt: nat| first_free_salt(used, index, line, salt),
{
    let free = choose|salt: nat| salt_is_free(used, index, line, salt);
    lemma_free_salt_least_below(used, index, line, free);
}

proof fn lemma_free_salt_least_below(used: Set<Seq<char>>, index: nat, line: Seq<char>, free: nat)
    requires
        salt_is_free(used, index, line, free),
    ensures
        exists|salt: nat| first_free_salt(used, index, line, salt),
    decreases free,
{
    if exists|s: nat| s < free && salt_is_free(used, index, line, s) {
        let smaller = choose|s: nat| s < free && salt_is_free(used, index, line, s);
        lemma_free_salt_least_below(used, index, line, smaller);
    } else {
        assert(first_free_salt(used, index, line, free));
    }
}

/// The anchors of a file: one for each line, no two alike, each of four hexadecimal digits in
/// lower case.
pub proof fn law_anchors_are_distinct(lines: Seq<Seq<char>>)
    requires
        anchorable(lines),
    ensures
        anchors_of(lines).len() == lines.len(),
        anchors_of(lines).no_duplicates(),
        forall|i: int| 0 <= i < lines.len() ==> #[trigger] anchors_of(lines)[i].len() == 4,
        forall|i: int, k: int|
            0 <= i < lines.len() && 0 <= k < 4 ==> hex_digit(#[trigger] anchors_of(lines)[i][k]),
{
    lemma_first_anchors(lines, lines.len());
    assert forall|i: int| 0 <= i < lines.len() implies #[trigger] anchors_of(lines)[i].len() == 4 by {
        law_hash_is_four_hex_digits(choose|bytes: Seq<u8>| anchors_of(lines)[i] == #[trigger] short_hash(bytes));
    }
    assert forall|i: int, k: int| 0 <= i < lines.len() && 0 <= k < 4 implies hex_digit(
        #[trigger] anchors_of(lines)[i][k],
    ) by {
        law_hash_is_four_hex_digits(choose|bytes: Seq<u8>| anchors_of(lines)[i] == #[trigger] short_hash(bytes));
    }
}

/// There are 65536 anchors, so no more lines than that can each get one.
pub proof fn law_anchors_run_out(lines: Seq<Seq<char>>)
    requires
        anchorable(lines),
    ensures
        lines.len() <= 0x10000,
{
    lemma_first_anchors(lines, lines.len());
    let anchors = anchors_of(lines);
    let numbers = Seq::new(
        lines.len(),
        |i: int|
            xxh32_digest(choose|bytes: Seq<u8>| anchors[i] == #[trigger] short_hash(bytes), 0) as int % 0x10000,
    );
    assert forall|i: int| 0 <= i < lines.len() implies {
        &&& anchors[i] == four_digits(#[trigger] numbers[i])
        &&& 0 <= numbers[i] < 0x10000
    } by {
        let bytes = choose|bytes: Seq<u8>| anchors[i] == #[trigger] short_hash(bytes);
        assert(first_anchors(lines, lines.len())->0[i] == anchors[i]);
        assert(anchors[i] == short_hash(bytes));
    }
    assert(numbers.no_duplicates());
    numbers.unique_seq_to_set();
    vstd::set_lib::lemma_int_range(0, 0x10000);
    assert(numbers.to_set().subset_of(vstd::set_lib::set_int_range(0, 0x10000)));
    vstd::set_lib::lemma_len_subset(numbers.to_set(), vstd::set_lib::set_int_range(0, 0x10000));
}

/// The plain anchors of the lines, in their order.
pub open spec fn plain_anchors(lines: Seq<Seq<char>>) -> Seq<Seq<char>> {
    Seq::new(lines.len(), |i: int| plain_anchor(lines[i]))
}

/// Whether `anchor` occurs in `plain` twice or more.
#[verifier::opaque]
spec fn occurs_twice(plain: Seq<String>, anchor: Seq<char>) -> bool {
    exists|i: int, j: int|
        0 <= i < j < plain.len() && #[trigger] plain[i]@ == anchor && #[trigger] plain[j]@ == anchor
}

/// Computes the plain anchors of the lines.
fn plain_anchors_for(lines: &[String]) -> (plain: Vec<String>)
    ensures
        texts(plain@) == plain_anchors(texts(lines@)),
{
    let mut plain: Vec<String> = Vec::new();
    let mut i: usize = 0;
    assert(texts(plain@) =~= plain_anchors(texts(lines@)).take(0));
    while i < lines.len()
        invariant
            i <= lines@.len(),
            texts(plain@) == plain_anchors(texts(lines@)).take(i as int),
        decreases lines@.len() - i,
    {
        let ghost before = texts(plain@);
        plain.push(four_char_hash(lines[i].as_str().trim().as_bytes()));
        assert(texts(plain@) =~= before.push(plain_anchors(texts(lines@))[i as int]));
        i += 1;
        assert(texts(plain@) =~= plain_anchors(texts(lines@)).take(i as int));
    }
    assert(plain_anchors(texts(lines@)).take(i as int) =~= plain_anchors(texts(lines@)));
    plain
}

/// Collects the anchors in `plain` that occur twice or more.
fn repeated_in(plain: &[String]) -> (repeated: StringHashSet)
    ensures
        forall|a: Seq<char>| #[trigger] repeated@.contains(a) <==> occurs_twice(plain@, a),
{
    let mut seen: StringHashSet = StringHashSet::new();
    let mut repeated: StringHashSet = StringHashSet::new();
    let mut k: usize = 0;
    while k < plain.len()
        invariant
            k <= plain@.len(),
            forall|a: Seq<char>| #[trigger]
                seen@.contains(a) <==> exists|i: int| 0 <= i < k && #[trigger] plain@[i]@ == a,
            forall|a: Seq<char>| #[trigger]
                repeated@.contains(a) <==> exists|i: int, j: int|
                    0 <= i < j < k && #[trigger] plain@[i]@ == a && #[trigger] plain@[j]@ == a,
        decreases plain@.len() - k,
    {
        if !seen.insert(plain[k].clone()) {
            repeated.insert(plain[k].clone());
        }
        k += 1;
    }
    reveal(occurs_twice);
    repeated
}

/// The anchors of `lines`: the plain one for a line that no other resembles, a fresh one for any
/// other. None where a line cannot get one because every salt gives an anchor in use.
pub fn try_anchors_for(lines: &[String]) -> (anchors: Option<Vec<String>>)
    ensures
        anchors is Some <==> anchorable(texts(lines@)),
        anchors matches Some(a) ==> texts(a@) == anchors_of(texts(lines@)),
{
    let ghost all = texts(lines@);
    if lines.len() > 0x10000 {
        proof {
            if anchorable(all) {
                law_anchors_run_out(all);
            }
        }
        return None;
    }
    let plain: Vec<String> = plain_anchors_for(lines);
    let repeated: StringHashSet = repeated_in(plain.as_slice());
    let mut used: StringHashSet = StringHashSet::new();
    let mut anchors: Vec<String> = Vec::new();
    let mut i: usize = 0;
    assert(used@ =~= texts(anchors@).to_set());
    assert(texts(anchors@) =~= Seq::empty());
    while i < lines.len()
        invariant
            i <= lines@.len(),
            all == texts(lines@),
            texts(plain@) == plain_anchors(all),
            forall|a: Seq<char>| #[trigger] repeated@.contains(a) <==> occurs_twice(plain@, a),
            anchors@.len() == i,
            first_anchors(all, i as nat) == Some(texts(anchors@)),
            used@ == texts(anchors@).to_set(),
        decreases lines@.len() - i,
    {
        let ghost given = texts(anchors@);
        proof {
            lemma_lone(all, plain@, i as int);
            assert(given.len() == i);
        }
        let anchor: String = if !repeated.contains(plain[i].as_str()) && used.insert(plain[i].clone()) {
            plain[i].clone()
        } else {
            assert(used@ =~= given.to_set());
            match try_unique_anchor(&mut used, i, lines[i].as_str()) {
                Some(anchor) => anchor,
                None => {
                    proof {
                        if anchorable(all) {
                            lemma_first_anchors_prefix(all, (i + 1) as nat, all.len());
                        }
                    }
                    return None;
                },
            }
        };
        anchors.push(anchor);
        proof {
            assert(texts(anchors@) =~= given.push(anchor@));
            given.lemma_push_to_set_commute(anchor@);
        }
        i += 1;
    }
    Some(anchors)
}

/// A line is lone where its plain anchor occurs once.
proof fn lemma_lone(lines: Seq<Seq<char>>, plain: Seq<String>, k: int)
    requires
        texts(plain) == plain_anchors(lines),
        0 <= k < lines.len(),
    ensures
        plain.len() == lines.len(),
        plain[k]@ == plain_anchor(lines[k]),
        is_lone(lines, k) <==> !occurs_twice(plain, plain[k]@),
{
    reveal(occurs_twice);
    assert(texts(plain).len() == plain.len());
    assert(plain_anchors(lines).len() == lines.len());
    assert forall|i: int| 0 <= i < lines.len() implies #[trigger] plain[i]@ == plain_anchor(lines[i]) by {
        assert(texts(plain)[i] == plain_anchors(lines)[i]);
    }
    if !is_lone(lines, k) {
        let j = choose|j: int|
            0 <= j < lines.len() && j != k && plain_anchor(#[trigger] lines[j]) == plain_anchor(lines[k]);
        assert(plain[j]@ == plain[k]@);
    }
}

/// The anchors of `lines`, in their order.
pub fn anchors_for(lines: &[String]) -> (anchors: Vec<String>)
    requires
        anchorable(texts(lines@)),
    ensures
        texts(anchors@) == anchors_of(texts(lines@)),
{
    try_anchors_for(lines).unwrap()
}

/// The anchor of each line. Where the hash of the trimmed line is that of no other line, and no line
/// above has it for an anchor, it is the anchor. Else the anchor is the hash of the smallest number
/// for which it is no anchor of a line above, of the index of the line, both in decimal and ended by
/// a NUL, and of the line itself.
pub proof fn law_anchor_is_a_hash_of_the_line(lines: Seq<Seq<char>>, i: int)
    requires
        anchorable(lines),
        0 <= i < lines.len(),
    ensures
        ({
            let anchors = anchors_of(lines);
            let above = anchors.take(i);
            let plain = |line: Seq<char>| short_hash(encode_utf8(trimmed(line)));
            let salted = |salt: nat|
                short_hash(
                    encode_utf8(decimal(salt) + seq!['\0'] + decimal(i as nat) + seq!['\0'] + lines[i]),
                );
            if (forall|j: int| 0 <= j < lines.len() && j != i ==> plain(#[trigger] lines[j]) != plain(lines[i]))
                && !above.contains(plain(lines[i])) {
                anchors[i] == plain(lines[i])
            } else {
                exists|salt: nat|
                    #![trigger salted(salt)]
                    {
                        &&& anchors[i] == salted(salt)
                        &&& !above.contains(anchors[i])
                        &&& forall|s: nat| s < salt ==> above.contains(#[trigger] salted(s))
                    }
            }
        }),
{
    let n = i as nat;
    lemma_first_anchors_prefix(lines, n, lines.len());
    lemma_first_anchors_prefix(lines, n + 1, lines.len());
    let anchors = anchors_of(lines);
    let given = first_anchors(lines, n)->0;
    assert(given == anchors.take(i));
    assert(anchors[i] == anchors.take(i + 1)[i]);
    assert(anchors[i] == next_anchor(lines, given)->0);
    let plain = |line: Seq<char>| short_hash(encode_utf8(trimmed(line)));
    let salted = |salt: nat|
        short_hash(encode_utf8(decimal(salt) + seq!['\0'] + decimal(n) + seq!['\0'] + lines[i]));
    assert forall|salt: nat| #[trigger] salted(salt) == salted_anchor(salt, n, lines[i]) by {
        assert(salted_text(salt, n, lines[i]) =~= decimal(salt) + seq!['\0'] + decimal(n) + seq!['\0']
            + lines[i]);
    }
    assert forall|j: int| 0 <= j < lines.len() implies plain(#[trigger] lines[j]) == plain_anchor(lines[j]) by {}
    if !gets_plain(lines, given) {
        assert(!((forall|j: int|
            0 <= j < lines.len() && j != i ==> plain(#[trigger] lines[j]) != plain(lines[i])) && !given.contains(
            plain(lines[i]),
        ))) by {
            if !is_lone(lines, i) {
                let j = choose|j: int|
                    0 <= j < lines.len() && j != i && plain_anchor(#[trigger] lines[j]) == plain_anchor(lines[i]);
                assert(plain(lines[j]) == plain(lines[i]));
            }
        }
        let used = given.to_set();
        lemma_free_salt_least(used, n, lines[i]);
        let salt = choose|salt: nat| first_free_salt(used, n, lines[i], salt);
        lemma_first_free_salt(used, n, lines[i], salt);
        assert(anchors[i] == salted(salt));
        assert forall|s: nat| s < salt implies given.contains(#[trigger] salted(s)) by {
            assert(!salt_is_free(used, n, lines[i], s));
        }
    } else {
        assert forall|j: int| 0 <= j < lines.len() && j != i implies plain(#[trigger] lines[j]) != plain(
            lines[i],
        ) by {
            assert(plain_anchor(lines[j]) != plain_anchor(lines[i]));
        }
    }
}

/// Where the lines of a file cannot each get an anchor, there is one for which every number below
/// 2147483647 gives the anchor of a line above it.
pub proof fn law_anchors_are_given_where_one_is_free(lines: Seq<Seq<char>>)
    requires
        !anchorable(lines),
    ensures
        exists|i: nat, above: Seq<Seq<char>>|
            {
                &&& i < lines.len()
                &&& first_anchors(lines, i) == Some(above)
                &&& above.len() == i
                &&& forall|salt: nat|
                    salt < 0x7fff_ffff ==> above.contains(
                        short_hash(
                            #[trigger] encode_utf8(
                                decimal(salt) + seq!['\0'] + decimal(i) + seq!['\0'] + lines[i as int],
                            ),
                        ),
                    )
            },
{
    lemma_no_free_salt(lines, lines.len());
}

proof fn lemma_no_free_salt(lines: Seq<Seq<char>>, n: nat)
    requires
        n <= lines.len(),
        first_anchors(lines, n) is None,
    ensures
        exists|i: nat, above: Seq<Seq<char>>|
            {
                &&& i < lines.len()
                &&& first_anchors(lines, i) == Some(above)
                &&& above.len() == i
                &&& forall|salt: nat|
                    salt < 0x7fff_ffff ==> above.contains(
                        short_hash(
                            #[trigger] encode_utf8(
                                decimal(salt) + seq!['\0'] + decimal(i) + seq!['\0'] + lines[i as int],
                            ),
                        ),
                    )
            },
    decreases n,
{
    let i = (n - 1) as nat;
    if first_anchors(lines, i) is None {
        lemma_no_free_salt(lines, i);
    } else {
        let above = first_anchors(lines, i)->0;
        lemma_first_anchors_prefix(lines, i, i);
        assert(!has_free_salt(above.to_set(), i, lines[i as int]));
        assert forall|salt: nat| salt < 0x7fff_ffff implies above.contains(
            short_hash(
                #[trigger] encode_utf8(
                    decimal(salt) + seq!['\0'] + decimal(i) + seq!['\0'] + lines[i as int],
                ),
            ),
        ) by {
            assert(salted_text(salt, i, lines[i as int]) =~= decimal(salt) + seq!['\0'] + decimal(i) + seq!['\0']
                + lines[i as int]);
            assert(!salt_is_free(above.to_set(), i, lines[i as int], salt));
        }
    }
}

/// The anchors of the first lines of a file are the first ones of its anchors.
pub proof fn law_first_anchors_are_the_first_of_all(lines: Seq<Seq<char>>, n: nat)
    requires
        anchorable(lines),
        n <= lines.len(),
    ensures
        first_anchors(lines, n) == Some(anchors_of(lines).take(n as int)),
{
    lemma_first_anchors_prefix(lines, n, lines.len());
}

} // verus!
