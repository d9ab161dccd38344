//! Country codes, the continents they roll up to, and their safe rendering in logs.

use crate::text::{hex_text, push_hex};
use vstd::prelude::*;

verus! {

/// Number of countries in [`COUNTRY_CONTINENT`].
pub const COUNTRY_COUNT: usize = 71;

/// Country code (two bytes) and continent code (two bytes), one row per country.
pub const COUNTRY_CONTINENT: [[u8; 4]; 71] = [
    [85, 83, 78, 65], // US NA
    [67, 65, 78, 65], // CA NA
    [77, 88, 78, 65], // MX NA
    [66, 82, 83, 65], // BR SA
    [65, 82, 83, 65], // AR SA
    [67, 76, 83, 65], // CL SA
    [67, 79, 83, 65], // CO SA
    [80, 69, 83, 65], // PE SA
    [86, 69, 83, 65], // VE SA
    [69, 67, 83, 65], // EC SA
    [71, 66, 69, 85], // GB EU
    [68, 69, 69, 85], // DE EU
    [70, 82, 69, 85], // FR EU
    [73, 84, 69, 85], // IT EU
    [69, 83, 69, 85], // ES EU
    [78, 76, 69, 85], // NL EU
    [80, 76, 69, 85], // PL EU
    [83, 69, 69, 85], // SE EU
    [78, 79, 69, 85], // NO EU
    [70, 73, 69, 85], // FI EU
    [68, 75, 69, 85], // DK EU
    [67, 72, 69, 85], // CH EU
    [65, 84, 69, 85], // AT EU
    [66, 69, 69, 85], // BE EU
    [80, 84, 69, 85], // PT EU
    [73, 69, 69, 85], // IE EU
    [71, 82, 69, 85], // GR EU
    [67, 90, 69, 85], // CZ EU
    [82, 79, 69, 85], // RO EU
    [72, 85, 69, 85], // HU EU
    [85, 65, 69, 85], // UA EU
    [82, 85, 69, 85], // RU EU
    [66, 89, 69, 85], // BY EU
    [66, 71, 69, 85], // BG EU
    [83, 75, 69, 85], // SK EU
    [72, 82, 69, 85], // HR EU
    [82, 83, 69, 85], // RS EU
    [84, 82, 65, 83], // TR AS
    [67, 78, 65, 83], // CN AS
    [74, 80, 65, 83], // JP AS
    [75, 82, 65, 83], // KR AS
    [73, 78, 65, 83], // IN AS
    [73, 68, 65, 83], // ID AS
    [84, 72, 65, 83], // TH AS
    [86, 78, 65, 83], // VN AS
    [80, 72, 65, 83], // PH AS
    [77, 89, 65, 83], // MY AS
    [83, 71, 65, 83], // SG AS
    [80, 75, 65, 83], // PK AS
    [66, 68, 65, 83], // BD AS
    [73, 82, 65, 83], // IR AS
    [73, 81, 65, 83], // IQ AS
    [83, 65, 65, 83], // SA AS
    [65, 69, 65, 83], // AE AS
    [73, 76, 65, 83], // IL AS
    [75, 90, 65, 83], // KZ AS
    [85, 90, 65, 83], // UZ AS
    [72, 75, 65, 83], // HK AS
    [84, 87, 65, 83], // TW AS
    [69, 71, 65, 70], // EG AF
    [78, 71, 65, 70], // NG AF
    [90, 65, 65, 70], // ZA AF
    [75, 69, 65, 70], // KE AF
    [69, 84, 65, 70], // ET AF
    [77, 65, 65, 70], // MA AF
    [68, 90, 65, 70], // DZ AF
    [84, 78, 65, 70], // TN AF
    [71, 72, 65, 70], // GH AF
    [85, 71, 65, 70], // UG AF
    [65, 85, 79, 67], // AU OC
    [78, 90, 79, 67], // NZ OC
];

/// The country of a table row.
pub open spec fn row_country(i: int) -> Seq<u8> {
    COUNTRY_CONTINENT@[i]@.take(2)
}

/// The continent of a table row.
pub open spec fn row_continent(i: int) -> Seq<u8> {
    COUNTRY_CONTINENT@[i]@.skip(2)
}

/// Whether row `i` of the table lists `code`.
pub open spec fn lists(i: int, code: Seq<u8>) -> bool {
    0 <= i < COUNTRY_COUNT && row_country(i) == code
}

/// Two letters as one number.
spec fn key(a: u8, b: u8) -> int {
    a * 256 + b
}

/// The row of a country, given as a number: the table turned round.
spec fn row_of(k: int) -> int {
    if k == 21843 {
        0
    } else if k == 17217 {
        1
    } else if k == 19800 {
        2
    } else if k == 16978 {
        3
    } else if k == 16722 {
        4
    } else if k == 17228 {
        5
    } else if k == 17231 {
        6
    } else if k == 20549 {
        7
    } else if k == 22085 {
        8
    } else if k == 17731 {
        9
    } else if k == 18242 {
        10
    } else if k == 17477 {
        11
    } else if k == 18002 {
        12
    } else if k == 18772 {
        13
    } else if k == 17747 {
        14
    } else if k == 20044 {
        15
    } else if k == 20556 {
        16
    } else if k == 21317 {
        17
    } else if k == 20047 {
        18
    } else if k == 17993 {
        19
    } else if k == 17483 {
        20
    } else if k == 17224 {
        21
    } else if k == 16724 {
        22
    } else if k == 16965 {
        23
    } else if k == 20564 {
        24
    } else if k == 18757 {
        25
    } else if k == 18258 {
        26
    } else if k == 17242 {
        27
    } else if k == 21071 {
        28
    } else if k == 18517 {
        29
    } else if k == 21825 {
        30
    } else if k == 21077 {
        31
    } else if k == 16985 {
        32
    } else if k == 16967 {
        33
    } else if k == 21323 {
        34
    } else if k == 18514 {
        35
    } else if k == 21075 {
        36
    } else if k == 21586 {
        37
    } else if k == 17230 {
        38
    } else if k == 19024 {
        39
    } else if k == 19282 {
        40
    } else if k == 18766 {
        41
    } else if k == 18756 {
        42
    } else if k == 21576 {
        43
    } else if k == 22094 {
        44
    } else if k == 20552 {
        45
    } else if k == 19801 {
        46
    } else if k == 21319 {
        47
    } else if k == 20555 {
        48
    } else if k == 16964 {
        49
    } else if k == 18770 {
        50
    } else if k == 18769 {
        51
    } else if k == 21313 {
        52
    } else if k == 16709 {
        53
    } else if k == 18764 {
        54
    } else if k == 19290 {
        55
    } else if k == 21850 {
        56
    } else if k == 18507 {
        57
    } else if k == 21591 {
        58
    } else if k == 17735 {
        59
    } else if k == 20039 {
        60
    } else if k == 23105 {
        61
    } else if k == 19269 {
        62
    } else if k == 17748 {
        63
    } else if k == 19777 {
        64
    } else if k == 17498 {
        65
    } else if k == 21582 {
        66
    } else if k == 18248 {
        67
    } else if k == 21831 {
        68
    } else if k == 16725 {
        69
    } else if k == 20058 {
        70
    } else {
        -1
    }
}

spec fn rows_agree(i: int) -> bool
    decreases COUNTRY_COUNT - i,
{
    if i >= COUNTRY_COUNT {
        true
    } else {
        let r = COUNTRY_CONTINENT@[i]@;
        row_of(key(r[0], r[1])) == i && rows_agree(i + 1)
    }
}

proof fn lemma_rows_agree()
    ensures
        rows_agree(0),
{
    reveal_with_fuel(rows_agree, 73);
}

proof fn lemma_row_agrees(from: int, i: int)
    requires
        0 <= from <= i < COUNTRY_COUNT,
        rows_agree(from),
    ensures
        row_of(key(COUNTRY_CONTINENT@[i]@[0], COUNTRY_CONTINENT@[i]@[1])) == i,
    decreases i - from,
{
    if from < i {
        lemma_row_agrees(from + 1, i);
    }
}

/// No country is listed twice, so it has one continent.
pub proof fn continent_is_unique(i: int, j: int, code: Seq<u8>)
    requires
        lists(i, code),
        lists(j, code),
    ensures
        i == j,
        row_continent(i) == row_continent(j),
{
    lemma_rows_agree();
    lemma_row_agrees(0, i);
    lemma_row_agrees(0, j);
    let a = COUNTRY_CONTINENT@[i]@;
    let b = COUNTRY_CONTINENT@[j]@;
    assert(row_country(i)[0] == a[0] && row_country(i)[1] == a[1]);
    assert(row_country(j)[0] == b[0] && row_country(j)[1] == b[1]);
}

/// The continent of a country, or the code itself where the table does not list it.
pub open spec fn continent_of(code: Seq<u8>) -> Seq<u8> {
    if exists|i: int| lists(i, code) {
        row_continent(choose|i: int| lists(i, code))
    } else {
        code
    }
}

/// The countries that the first `n` rows place on a continent, in table order.
pub open spec fn listed_on(continent: Seq<u8>, n: nat) -> Seq<Seq<u8>>
    decreases n,
{
    if n == 0 {
        seq![]
    } else {
        let before = listed_on(continent, (n - 1) as nat);
        if row_continent(n - 1) == continent {
            before.push(row_country(n - 1))
        } else {
            before
        }
    }
}

/// Every listed country of a continent, and the asking country where it is not among them.
pub open spec fn members_of(continent: Seq<u8>, country: Seq<u8>) -> Seq<Seq<u8>> {
    let listed = listed_on(continent, COUNTRY_COUNT as nat);
    if listed.contains(country) {
        listed
    } else {
        listed.push(country)
    }
}

/// The table has the country.
pub open spec fn is_listed(country: Seq<u8>) -> bool {
    exists|i: int| lists(i, country)
}

/// The countries whose reports count for `country`: its whole continent, or itself alone where
/// the table does not list it.
pub open spec fn rollup_of(country: Seq<u8>) -> Seq<Seq<u8>> {
    if is_listed(country) {
        members_of(continent_of(country), country)
    } else {
        seq![country]
    }
}

/// The byte sequences of a list of codes.
pub open spec fn codes(list: Seq<[u8; 2]>) -> Seq<Seq<u8>> {
    list.map_values(|c: [u8; 2]| c@)
}

/// ASCII letters and digits.
pub open spec fn alphanumeric(b: u8) -> bool {
    48 <= b <= 57 || 65 <= b <= 90 || 97 <= b <= 122
}

/// What a log line shows for a country code.
pub open spec fn log_text(code: Seq<u8>) -> Seq<char> {
    if alphanumeric(code[0]) && alphanumeric(code[1]) {
        seq![code[0] as char, code[1] as char]
    } else {
        seq!['0', 'x'] + hex_text(code)
    }
}

fn same_code(a: &[u8; 2], b: &[u8; 2]) -> (same: bool)
    ensures
        same == (a@ == b@),
{
    proof {
        if a@[0] == b@[0] && a@[1] == b@[1] {
            assert(a@ =~= b@);
        }
    }
    a[0] == b[0] && a[1] == b[1]
}

fn find_row(country_code: &[u8; 2]) -> (row: Option<usize>)
    ensures
        match row {
            Some(i) => lists(i as int, country_code@),
            None => !is_listed(country_code@),
        },
{
    let mut i: usize = 0;
    while i < COUNTRY_COUNT
        invariant
            i <= COUNTRY_COUNT,
            forall|j: int| 0 <= j < i ==> !lists(j, country_code@),
        decreases COUNTRY_COUNT - i,
    {
        let row: [u8; 4] = COUNTRY_CONTINENT[i];
        if row[0] == country_code[0] && row[1] == country_code[1] {
            assert(row_country(i as int) =~= country_code@);
            return Some(i);
        }
        proof {
            if row_country(i as int) == country_code@ {
                assert(row_country(i as int)[0] == row@[0]);
                assert(row_country(i as int)[1] == row@[1]);
            }
        }
        i += 1;
    }
    None
}

/// The continent that a country's reports roll up to.
pub fn continent_for(country_code: &[u8; 2]) -> (continent: [u8; 2])
    ensures
        continent@ == continent_of(country_code@),
{
    match find_row(country_code) {
        Some(i) => {
            let row: [u8; 4] = COUNTRY_CONTINENT[i];
            let found: [u8; 2] = [row[2], row[3]];
            proof {
                continent_is_unique(
                    i as int,
                    choose|k: int| lists(k, country_code@),
                    country_code@,
                );
                assert(found@ =~= row_continent(i as int));
            }
            found
        },
        None => *country_code,
    }
}

/// The listed countries of a continent, with `self_country` added where it is missing.
pub fn continent_members(continent: &[u8; 2], self_country: &[u8; 2]) -> (members: Vec<[u8; 2]>)
    ensures
        codes(members@) == members_of(continent@, self_country@),
{
    let mut members: Vec<[u8; 2]> = Vec::new();
    let mut present: bool = false;
    let mut i: usize = 0;
    assert(codes(members@) =~= listed_on(continent@, 0));
    while i < COUNTRY_COUNT
        invariant
            i <= COUNTRY_COUNT,
            codes(members@) == listed_on(continent@, i as nat),
            present == codes(members@).contains(self_country@),
        decreases COUNTRY_COUNT - i,
    {
        let row: [u8; 4] = COUNTRY_CONTINENT[i];
        let country: [u8; 2] = [row[0], row[1]];
        let place: [u8; 2] = [row[2], row[3]];
        assert(country@ =~= row_country(i as int));
        assert(place@ =~= row_continent(i as int));
        if same_code(&place, continent) {
            let ghost before = codes(members@);
            members.push(country);
            assert(codes(members@) =~= before.push(country@));
            proof {
                lemma_push_contains(before, country@, self_country@);
            }
            if same_code(&country, self_country) {
                present = true;
            }
        }
        i += 1;
    }
    if !present {
        let ghost before = codes(members@);
        members.push(*self_country);
        assert(codes(members@) =~= before.push(self_country@));
    }
    members
}

/// The countries whose reports count for a country.
pub fn rollup_members(country_code: &[u8; 2]) -> (members: Vec<[u8; 2]>)
    ensures
        codes(members@) == rollup_of(country_code@),
{
    match find_row(country_code) {
        Some(_) => {
            let continent: [u8; 2] = continent_for(country_code);
            continent_members(&continent, country_code)
        },
        None => {
            let mut members: Vec<[u8; 2]> = Vec::new();
            members.push(*country_code);
            assert(codes(members@) =~= seq![country_code@]);
            members
        },
    }
}

proof fn lemma_push_contains(s: Seq<Seq<u8>>, x: Seq<u8>, y: Seq<u8>)
    ensures
        s.push(x).contains(y) == (s.contains(y) || x == y),
{
    if s.contains(y) {
        let k = choose|k: int| 0 <= k < s.len() && s[k] == y;
        assert(s.push(x)[k] == y);
    }
    if x == y {
        assert(s.push(x)[s.len() as int] == y);
    }
    if s.push(x).contains(y) {
        let k = choose|k: int| 0 <= k < s.push(x).len() && s.push(x)[k] == y;
        if k < s.len() {
            assert(s[k] == y);
        }
    }
}

/// Renders a client-supplied country code so that no control character reaches a log.
pub fn sanitize_country_code_for_log(country_code: &[u8; 2]) -> (text: String)
    ensures
        text@ == log_text(country_code@),
{
    let mut text: String = String::new();
    if is_alphanumeric(country_code[0]) && is_alphanumeric(country_code[1]) {
        text.push(country_code[0] as char);
        text.push(country_code[1] as char);
    } else {
        text.push('0');
        text.push('x');
        push_hex(&mut text, country_code.as_slice());
    }
    assert(text@ =~= log_text(country_code@));
    text
}

fn is_alphanumeric(b: u8) -> (r: bool)
    ensures
        r == alphanumeric(b),
{
    (48 <= b && b <= 57) || (65 <= b && b <= 90) || (97 <= b && b <= 122)
}

proof fn lemma_listed(continent: Seq<u8>, n: nat, country: Seq<u8>)
    requires
        n <= COUNTRY_COUNT,
    ensures
        listed_on(continent, n).contains(country) <==> exists|i: int|
            0 <= i < n && #[trigger] lists(i, country) && row_continent(i) == continent,
    decreases n,
{
    if n > 0 {
        let m = (n - 1) as nat;
        lemma_listed(continent, m, country);
        let before = listed_on(continent, m);
        lemma_push_contains(before, row_country(n - 1), country);
        if listed_on(continent, n).contains(country) {
            if !before.contains(country) {
                assert(lists(n - 1, country));
            }
        }
    }
}

proof fn lemma_listed_once(continent: Seq<u8>, n: nat)
    requires
        n <= COUNTRY_COUNT,
    ensures
        listed_on(continent, n).no_duplicates(),
    decreases n,
{
    if n > 0 {
        let m = (n - 1) as nat;
        let before = listed_on(continent, m);
        let last = row_country(n - 1);
        lemma_listed_once(continent, m);
        lemma_listed(continent, m, last);
        if before.contains(last) {
            let i = choose|i: int|
                0 <= i < m && #[trigger] lists(i, last) && row_continent(i) == continent;
            assert(lists(n - 1, last));
            continent_is_unique(i, n - 1, last);
        }
    }
}

/// A continent's members, as a country asks for them, are the countries that the table places
/// there and the asking country itself.
pub proof fn members_are_those_of_the_table(continent: Seq<u8>, country: Seq<u8>, code: Seq<u8>)
    ensures
        members_of(continent, country).contains(code) <==> code == country || exists|i: int|
            #[trigger] lists(i, code) && row_continent(i) == continent,
{
    let listed = listed_on(continent, COUNTRY_COUNT as nat);
    lemma_listed(continent, COUNTRY_COUNT as nat, code);
    lemma_push_contains(listed, country, code);
}

/// No country is twice among a continent's members.
pub proof fn members_occur_once(continent: Seq<u8>, country: Seq<u8>)
    ensures
        members_of(continent, country).no_duplicates(),
{
    lemma_listed_once(continent, COUNTRY_COUNT as nat);
}

/// Of two listed countries, one is among the members of the other's continent exactly where they
/// share the continent.
pub proof fn members_share_a_continent(a: Seq<u8>, b: Seq<u8>)
    requires
        is_listed(a),
        is_listed(b),
    ensures
        members_of(continent_of(a), a).contains(b) <==> continent_of(a) == continent_of(b),
{
    members_are_those_of_the_table(continent_of(a), a, b);
    let k = choose|k: int| lists(k, b);
    if exists|i: int| #[trigger] lists(i, b) && row_continent(i) == continent_of(a) {
        let i = choose|i: int| #[trigger] lists(i, b) && row_continent(i) == continent_of(a);
        continent_is_unique(i, k, b);
    }
}

/// A country that the table does not list shares reports with nobody, whatever it is called.
pub proof fn unlisted_country_stands_alone(a: Seq<u8>, b: Seq<u8>)
    requires
        !is_listed(a),
        a != b,
    ensures
        !rollup_of(a).contains(b),
        !rollup_of(b).contains(a),
{
    if is_listed(b) {
        members_are_those_of_the_table(continent_of(b), b, a);
    }
}

/// A country always counts among the reporters of its own region.
pub proof fn country_is_in_its_rollup(country: Seq<u8>)
    ensures
        rollup_of(country).contains(country),
{
    if is_listed(country) {
        members_are_those_of_the_table(continent_of(country), country, country);
    } else {
        assert(seq![country][0] == country);
    }
}

/// Roll-up is mutual: where the reports of `a` count for `b`, those of `b` count for `a`.
pub proof fn rollup_is_mutual(a: Seq<u8>, b: Seq<u8>)
    requires
        rollup_of(b).contains(a),
    ensures
        rollup_of(a).contains(b),
{
    if a == b {
        country_is_in_its_rollup(a);
    } else if !is_listed(a) {
        unlisted_country_stands_alone(a, b);
    } else if !is_listed(b) {
        unlisted_country_stands_alone(b, a);
    } else {
        members_share_a_continent(b, a);
        members_share_a_continent(a, b);
    }
}

/// A country in the table is on the continent that its row names; one that is not stands for
/// itself.
pub proof fn continent_is_the_one_in_the_table(i: int, code: Seq<u8>)
    ensures
        0 <= i < 71 && COUNTRY_CONTINENT@[i]@.take(2) == code ==> continent_of(code)
            == COUNTRY_CONTINENT@[i]@.skip(2),
        (forall|k: int| 0 <= k < 71 ==> (#[trigger] COUNTRY_CONTINENT@[k])@.take(2) != code)
            ==> continent_of(code) == code && rollup_of(code) == seq![code],
{
    if 0 <= i < 71 && COUNTRY_CONTINENT@[i]@.take(2) == code {
        assert(lists(i, code));
        let j = choose|j: int| lists(j, code);
        continent_is_unique(i, j, code);
    }
    if forall|k: int| 0 <= k < 71 ==> (#[trigger] COUNTRY_CONTINENT@[k])@.take(2) != code {
        assert forall|k: int| !lists(k, code) by {
            if lists(k, code) {
                assert(COUNTRY_CONTINENT@[k]@.take(2) == code);
            }
        }
    }
}

/// Reports of one country count for another exactly where they are the same, or both are in the
/// table and on one continent.
pub proof fn reports_count_across_a_continent(a: Seq<u8>, b: Seq<u8>)
    ensures
        rollup_of(a).contains(b) <==> a == b || (is_listed(a) && is_listed(b) && continent_of(a)
            == continent_of(b)),
{
    if a == b {
        country_is_in_its_rollup(a);
    } else if is_listed(a) && is_listed(b) {
        members_share_a_continent(a, b);
    } else if is_listed(a) {
        unlisted_country_stands_alone(b, a);
    } else {
        unlisted_country_stands_alone(a, b);
    }
}

/// A country code is logged as it is where both of its bytes are letters or digits, and in
/// hexadecimal where they are not: nothing else reaches the log.
pub proof fn log_holds_plain_characters(code: Seq<u8>)
    requires
        code.len() == 2,
    ensures
        ({
            let plain = |b: u8| 48 <= b <= 57 || 65 <= b <= 90 || 97 <= b <= 122;
            let text = log_text(code);
            &&& plain(code[0]) && plain(code[1]) ==> text.len() == 2 && text[0] as nat == code[0]
                && text[1] as nat == code[1]
            &&& !plain(code[0]) || !plain(code[1]) ==> text == seq!['0', 'x'] + hex_text(code)
        }),
{
}

} // verus!
