use vstd::prelude::*;

verus! {

/// Language id of English (the primary language part of a LANGID).
pub const LANG_ID_EN: u16 = 0x0009;

/// Language id of Japanese (the primary language part of a LANGID).
pub const LANG_ID_JP: u16 = 0x0011;

/// The game builds this library knows the layout of.
#[derive(Debug, Clone, Copy, PartialEq, Eq, Structural)]
pub enum GameVersion {
    /// Worldwide release 2.7.0.0.
    Ww270,
    /// Japanese release 2.7.0.1.
    Jp2701,
}

/// The version that a product name, a primary language id and a version string
/// identify, if any.
pub open spec fn spec_from_metadata(product: Seq<char>, lang_id: u16, version: Seq<char>) -> Option<GameVersion> {
    if product == "ELDEN RING™"@ && lang_id == LANG_ID_EN && version == "2.7.0.0"@ {
        Some(GameVersion::Ww270)
    } else if product == "ELDEN RING"@ && lang_id == LANG_ID_JP && version == "2.7.0.1"@ {
        Some(GameVersion::Jp2701)
    } else {
        None
    }
}

impl GameVersion {
    /// Identifies the game build from its product name, the primary language id of
    /// its version resource and its product version string.
    pub fn from_metadata(product: &str, lang_id: u16, version: &str) -> (r: Option<GameVersion>)
        ensures
            r == spec_from_metadata(product@, lang_id, version@),
    {
        let product = product.to_owned();
        let version = version.to_owned();
        if product == "ELDEN RING™".to_owned() && lang_id == LANG_ID_EN && version == "2.7.0.0".to_owned() {
            Some(GameVersion::Ww270)
        } else if product == "ELDEN RING".to_owned() && lang_id == LANG_ID_JP && version == "2.7.0.1".to_owned() {
            Some(GameVersion::Jp2701)
        } else {
            None
        }
    }
}

// ---------------------------------------------------------------------------
// What detection computes from a module's version resource.

/// The decimal digit `d` as a character.
pub open spec fn spec_digit_char(d: int) -> char {
    if d == 0 { '0' }
    else if d == 1 { '1' }
    else if d == 2 { '2' }
    else if d == 3 { '3' }
    else if d == 4 { '4' }
    else if d == 5 { '5' }
    else if d == 6 { '6' }
    else if d == 7 { '7' }
    else if d == 8 { '8' }
    else { '9' }
}

/// The decimal representation of `n`, without leading zeros.
pub open spec fn spec_decimal(n: nat) -> Seq<char>
    decreases n,
{
    if n < 10 {
        seq![spec_digit_char(n as int)]
    } else {
        spec_decimal(n / 10) + seq![spec_digit_char((n % 10) as int)]
    }
}

/// A product version `(major, minor, patch, build)` written the way the game's
/// version is compared: the four numbers in decimal, joined by dots.
pub open spec fn spec_version_string(v: (u16, u16, u16, u16)) -> Seq<char> {
    spec_decimal(v.0 as nat) + seq!['.'] + spec_decimal(v.1 as nat) + seq!['.'] + spec_decimal(
        v.2 as nat,
    ) + seq!['.'] + spec_decimal(v.3 as nat)
}

/// The value of the last entry of `table` whose key is `key`.
pub open spec fn spec_last_value(table: Seq<(Seq<char>, Seq<char>)>, key: Seq<char>) -> Option<
    Seq<char>,
>
    decreases table.len(),
{
    if table.len() == 0 {
        None
    } else if table.last().0 == key {
        Some(table.last().1)
    } else {
        spec_last_value(table.drop_last(), key)
    }
}

/// The characters of each key and value of a string table.
pub open spec fn spec_table_view(table: Seq<(String, String)>) -> Seq<(Seq<char>, Seq<char>)> {
    table.map_values(|e: (String, String)| (e.0@, e.1@))
}

/// The primary language part of a language id: its low ten bits.
pub open spec fn spec_primary_lang(lang_id: u16) -> u16 {
    (lang_id % 1024) as u16
}

/// The version that a version resource identifies: its product name is the
/// last `ProductName` entry of the string table of its first language, and
/// its version string is written from the product version.
pub open spec fn spec_from_version_data(
    product_version: (u16, u16, u16, u16),
    lang_id: u16,
    strings: Seq<(Seq<char>, Seq<char>)>,
) -> Option<GameVersion> {
    match spec_last_value(strings, "ProductName"@) {
        Some(product) => spec_from_metadata(
            product,
            spec_primary_lang(lang_id),
            spec_version_string(product_version),
        ),
        None => None,
    }
}

/// A decimal representation is nonempty and holds digits only, no dot.
pub proof fn lemma_decimal_digits(n: nat)
    ensures
        spec_decimal(n).len() >= 1,
        n >= 10 ==> spec_decimal(n).len() >= 2,
        spec_dot_free(spec_decimal(n)),
    decreases n,
{
    if n >= 10 {
        lemma_decimal_digits(n / 10);
    }
}

/// Distinct numbers have distinct decimal representations.
pub proof fn lemma_decimal_injective(n: nat, m: nat)
    requires
        spec_decimal(n) == spec_decimal(m),
    ensures
        n == m,
    decreases n,
{
    lemma_decimal_digits(n);
    lemma_decimal_digits(m);
    if n >= 10 && m >= 10 {
        let a = spec_decimal(n);
        assert(a.drop_last() =~= spec_decimal(n / 10));
        assert(spec_decimal(m).drop_last() =~= spec_decimal(m / 10));
        assert(spec_digit_char((n % 10) as int) == spec_digit_char((m % 10) as int)) by {
            assert(a.last() == spec_digit_char((n % 10) as int));
            assert(spec_decimal(m).last() == spec_digit_char((m % 10) as int));
        }
        lemma_decimal_injective(n / 10, m / 10);
    } else if n < 10 && m < 10 {
        assert(spec_decimal(n)[0] == spec_digit_char(n as int));
        assert(spec_decimal(m)[0] == spec_digit_char(m as int));
    }
}

/// Two texts, each a dot-free part, a dot and a rest, are equal only if their
/// parts and their rests are.
proof fn lemma_split_at_dot(a: Seq<char>, r1: Seq<char>, b: Seq<char>, r2: Seq<char>)
    requires
        spec_dot_free(a),
        spec_dot_free(b),
        a + seq!['.'] + r1 == b + seq!['.'] + r2,
    ensures
        a == b,
        r1 == r2,
{
    let x = a + seq!['.'] + r1;
    let y = b + seq!['.'] + r2;
    if a.len() < b.len() {
        assert(x[a.len() as int] == '.');
        assert(y[a.len() as int] == b[a.len() as int]);
    } else if b.len() < a.len() {
        assert(y[b.len() as int] == '.');
        assert(x[b.len() as int] == a[b.len() as int]);
    }
    assert(a =~= x.subrange(0, a.len() as int));
    assert(b =~= y.subrange(0, b.len() as int));
    assert(r1 =~= x.subrange(a.len() as int + 1, x.len() as int));
    assert(r2 =~= y.subrange(b.len() as int + 1, y.len() as int));
}

/// Distinct product versions are written as distinct version strings.
pub proof fn lemma_version_string_injective(v: (u16, u16, u16, u16), w: (u16, u16, u16, u16))
    requires
        spec_version_string(v) == spec_version_string(w),
    ensures
        v == w,
{
    lemma_decimal_digits(v.0 as nat);
    lemma_decimal_digits(v.1 as nat);
    lemma_decimal_digits(v.2 as nat);
    lemma_decimal_digits(w.0 as nat);
    lemma_decimal_digits(w.1 as nat);
    lemma_decimal_digits(w.2 as nat);
    lemma_dotted_injective(
        spec_decimal(v.0 as nat),
        spec_decimal(v.1 as nat),
        spec_decimal(v.2 as nat),
        spec_decimal(v.3 as nat),
        spec_decimal(w.0 as nat),
        spec_decimal(w.1 as nat),
        spec_decimal(w.2 as nat),
        spec_decimal(w.3 as nat),
    );
    lemma_decimal_injective(v.0 as nat, w.0 as nat);
    lemma_decimal_injective(v.1 as nat, w.1 as nat);
    lemma_decimal_injective(v.2 as nat, w.2 as nat);
    lemma_decimal_injective(v.3 as nat, w.3 as nat);
}

/// The text has no dot.
pub open spec fn spec_dot_free(a: Seq<char>) -> bool {
    forall|i: int| 0 <= i < a.len() ==> #[trigger] a[i] != '.'
}

/// Four parts joined by dots, the first three of them dot-free, determine
/// the parts.
proof fn lemma_dotted_injective(
    a0: Seq<char>,
    a1: Seq<char>,
    a2: Seq<char>,
    a3: Seq<char>,
    b0: Seq<char>,
    b1: Seq<char>,
    b2: Seq<char>,
    b3: Seq<char>,
)
    requires
        spec_dot_free(a0),
        spec_dot_free(a1),
        spec_dot_free(a2),
        spec_dot_free(b0),
        spec_dot_free(b1),
        spec_dot_free(b2),
        a0 + seq!['.'] + a1 + seq!['.'] + a2 + seq!['.'] + a3 == b0 + seq!['.'] + b1 + seq!['.'] + b2
            + seq!['.'] + b3,
    ensures
        a0 == b0,
        a1 == b1,
        a2 == b2,
        a3 == b3,
{
    let ra1 = a2 + seq!['.'] + a3;
    let rb1 = b2 + seq!['.'] + b3;
    let ra0 = a1 + seq!['.'] + ra1;
    let rb0 = b1 + seq!['.'] + rb1;
    assert(a0 + seq!['.'] + a1 + seq!['.'] + a2 + seq!['.'] + a3 =~= a0 + seq!['.'] + ra0);
    assert(b0 + seq!['.'] + b1 + seq!['.'] + b2 + seq!['.'] + b3 =~= b0 + seq!['.'] + rb0);
    lemma_split_at_dot(a0, ra0, b0, rb0);
    lemma_split_at_dot(a1, ra1, b1, rb1);
    lemma_split_at_dot(a2, a3, b2, b3);
}

/// Detection identifies exactly the two known builds: the worldwide one for
/// product `ELDEN RING™`, primary language English and product version
/// 2.7.0.0, the Japanese one for product `ELDEN RING`, primary language
/// Japanese and product version 2.7.0.1, and nothing else.
pub proof fn lemma_version_data_exact(
    product_version: (u16, u16, u16, u16),
    lang_id: u16,
    strings: Seq<(Seq<char>, Seq<char>)>,
)
    ensures
        spec_from_version_data(product_version, lang_id, strings) == Some(GameVersion::Ww270) <==> (
        product_version == (2u16, 7u16, 0u16, 0u16) && spec_primary_lang(lang_id) == LANG_ID_EN
            && spec_last_value(strings, "ProductName"@) == Some("ELDEN RING™"@)),
        spec_from_version_data(product_version, lang_id, strings) == Some(GameVersion::Jp2701) <==> (
        product_version == (2u16, 7u16, 0u16, 1u16) && spec_primary_lang(lang_id) == LANG_ID_JP
            && spec_last_value(strings, "ProductName"@) == Some("ELDEN RING"@)),
{
    reveal_strlit("2.7.0.0");
    reveal_strlit("2.7.0.1");
    let ww = (2u16, 7u16, 0u16, 0u16);
    let jp = (2u16, 7u16, 0u16, 1u16);
    assert(spec_version_string(ww) =~= "2.7.0.0"@);
    assert(spec_version_string(jp) =~= "2.7.0.1"@);
    if spec_version_string(product_version) == "2.7.0.0"@ {
        lemma_version_string_injective(product_version, ww);
    }
    if spec_version_string(product_version) == "2.7.0.1"@ {
        lemma_version_string_injective(product_version, jp);
    }
}

/// The version that the data of a version resource identify: none without a
/// product version or without a language, else what the product version, the
/// first language's id and the string table (of that language) identify.
pub open spec fn spec_from_resource_data(
    product_version: Option<(u16, u16, u16, u16)>,
    translations: Seq<(u16, u16)>,
    strings: Seq<(Seq<char>, Seq<char>)>,
) -> Option<GameVersion> {
    match product_version {
        Some(pv) => if translations.len() == 0 {
            None
        } else {
            spec_from_version_data(pv, translations[0].0, strings)
        },
        None => None,
    }
}

/// The text of the decimal digit `d`.
fn digit_str(d: u16) -> (r: &'static str)
    requires
        d < 10,
    ensures
        r@ == seq![spec_digit_char(d as int)],
{
    match d {
        0 => {
            proof { reveal_strlit("0"); }
            "0"
        },
        1 => {
            proof { reveal_strlit("1"); }
            "1"
        },
        2 => {
            proof { reveal_strlit("2"); }
            "2"
        },
        3 => {
            proof { reveal_strlit("3"); }
            "3"
        },
        4 => {
            proof { reveal_strlit("4"); }
            "4"
        },
        5 => {
            proof { reveal_strlit("5"); }
            "5"
        },
        6 => {
            proof { reveal_strlit("6"); }
            "6"
        },
        7 => {
            proof { reveal_strlit("7"); }
            "7"
        },
        8 => {
            proof { reveal_strlit("8"); }
            "8"
        },
        _ => {
            proof { reveal_strlit("9"); }
            "9"
        },
    }
}

/// Appends `n` in decimal to `s`.
fn push_decimal(s: &mut String, n: u16)
    ensures
        final(s)@ == old(s)@ + spec_decimal(n as nat),
    decreases n,
{
    if n >= 10 {
        push_decimal(s, n / 10);
    }
    s.append(digit_str(n % 10));
    proof {
        if n >= 10 {
            assert(old(s)@ + spec_decimal((n / 10) as nat) + seq![spec_digit_char((n % 10) as int)]
                =~= old(s)@ + spec_decimal(n as nat));
        }
    }
}

/// Writes a product version `(major, minor, patch, build)` as four decimal
/// numbers joined by dots.
pub fn version_string(v: (u16, u16, u16, u16)) -> (r: String)
    ensures
        r@ == spec_version_string(v),
{
    let mut s = String::new();
    proof { reveal_strlit("."); }
    push_decimal(&mut s, v.0);
    s.append(".");
    push_decimal(&mut s, v.1);
    s.append(".");
    push_decimal(&mut s, v.2);
    s.append(".");
    push_decimal(&mut s, v.3);
    assert(s@ =~= spec_version_string(v));
    s
}

/// The value of the last entry of `strings` whose key is `ProductName`.
pub fn product_name(strings: &Vec<(String, String)>) -> (r: Option<String>)
    ensures
        match r {
            Some(p) => spec_last_value(spec_table_view(strings@), "ProductName"@) == Some(p@),
            None => spec_last_value(spec_table_view(strings@), "ProductName"@) is None,
        },
{
    let key = "ProductName".to_owned();
    let ghost table = spec_table_view(strings@);
    let mut found: Option<String> = None;
    let n = strings.len();
    let mut i: usize = 0;
    assert(table.take(0) =~= Seq::<(Seq<char>, Seq<char>)>::empty());
    while i < n
        invariant
            n == strings@.len(),
            table == spec_table_view(strings@),
            key@ == "ProductName"@,
            i <= n,
            match found {
                Some(p) => spec_last_value(table.take(i as int), key@) == Some(p@),
                None => spec_last_value(table.take(i as int), key@) is None,
            },
        decreases n - i,
    {
        assert(table.take(i + 1).drop_last() =~= table.take(i as int));
        assert(table.take(i + 1).last() == table[i as int]);
        if strings[i].0 == key {
            found = Some(strings[i].1.clone());
        }
        i = i + 1;
    }
    assert(table.take(n as int) =~= table);
    found
}

impl GameVersion {
    /// Identifies the game build from the data of its version resource: the
    /// product version, the language id of its first language and the string
    /// table of that language, as key and value pairs in their order.
    pub fn from_version_data(
        product_version: (u16, u16, u16, u16),
        lang_id: u16,
        strings: &Vec<(String, String)>,
    ) -> (r: Option<GameVersion>)
        ensures
            r == spec_from_version_data(product_version, lang_id, spec_table_view(strings@)),
    {
        let version = version_string(product_version);
        let product = match product_name(strings) {
            Some(p) => p,
            None => return None,
        };
        let lang_id_base = lang_id & 0x03FF;
        assert(lang_id & 0x03FF == lang_id % 1024) by (bit_vector);
        GameVersion::from_metadata(product.as_str(), lang_id_base, version.as_str())
    }

    /// Identifies the game build from what its version resource gives: the
    /// product version of its fixed file information (none when it has none),
    /// its languages as `(lang_id, charset_id)` pairs, and the string table of
    /// the first language. None when there is no product version or no
    /// language; else as [`GameVersion::from_version_data`] for the first
    /// language's id.
    pub fn from_resource_data(
        product_version: Option<(u16, u16, u16, u16)>,
        translations: &Vec<(u16, u16)>,
        strings: &Vec<(String, String)>,
    ) -> (r: Option<GameVersion>)
        ensures
            r == spec_from_resource_data(product_version, translations@, spec_table_view(strings@)),
    {
        let pv = match product_version {
            Some(v) => v,
            None => return None,
        };
        if translations.len() == 0 {
            return None;
        }
        let language = translations[0];
        GameVersion::from_version_data(pv, language.0, strings)
    }
}

impl GameVersion {
    /// The language whose string table detection reads: the first of the
    /// resource's languages, when the resource has a product version and at
    /// least one language; none otherwise, as then no string table is needed.
    pub fn first_language(
        product_version: Option<(u16, u16, u16, u16)>,
        translations: &Vec<(u16, u16)>,
    ) -> (r: Option<(u16, u16)>)
        ensures
            r == if product_version is Some && translations@.len() > 0 {
                Some(translations@[0])
            } else {
                None
            },
    {
        if product_version.is_some() && translations.len() > 0 {
            Some(translations[0])
        } else {
            None
        }
    }
}

} // verus!
