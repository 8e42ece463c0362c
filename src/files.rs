//! Names of the log files: `<gen>.log` in the data directory, `<gen>` a
//! decimal `u64`.
use vstd::prelude::*;
use vstd::string::*;

verus! {

/// The character of the decimal digit `d`.
pub open spec fn digit_char(d: nat) -> char {
    if d == 0 {
        '0'
    } else if d == 1 {
        '1'
    } else if d == 2 {
        '2'
    } else if d == 3 {
        '3'
    } else if d == 4 {
        '4'
    } else if d == 5 {
        '5'
    } else if d == 6 {
        '6'
    } else if d == 7 {
        '7'
    } else if d == 8 {
        '8'
    } else {
        '9'
    }
}

/// The decimal digits of `n`, without sign or leading zeros.
pub open spec fn decimal(n: nat) -> Seq<char>
    decreases n,
{
    if n < 10 {
        seq![digit_char(n)]
    } else {
        decimal(n / 10).push(digit_char(n % 10))
    }
}

/// Whether `c` is an ASCII decimal digit.
pub open spec fn is_digit(c: char) -> bool {
    '0' <= c <= '9'
}

/// The number that the decimal digits of `s` write.
pub open spec fn digits_value(s: Seq<char>) -> nat
    decreases s.len(),
{
    if s.len() == 0 {
        0
    } else {
        digits_value(s.drop_last()) * 10 + (s.last() as nat - 48) as nat
    }
}

/// The `u64` that `s` writes: an optional `+`, then one or more decimal
/// digits whose value fits a `u64`.
pub open spec fn u64_literal(s: Seq<char>) -> Option<u64> {
    let d = if s.len() > 0 && s[0] == '+' {
        s.subrange(1, s.len() as int)
    } else {
        s
    };
    if d.len() > 0 && (forall|i: int| 0 <= i < d.len() ==> is_digit(#[trigger] d[i])) && digits_value(d)
        <= u64::MAX {
        Some(digits_value(d) as u64)
    } else {
        None
    }
}

/// The extension of a log file's name.
pub open spec fn log_extension() -> Seq<char> {
    seq!['.', 'l', 'o', 'g']
}

/// The name of the log file of generation `gen`.
pub open spec fn log_file_name(gen: u64) -> Seq<char> {
    decimal(gen as nat) + log_extension()
}

/// The generation that a file name gives, when the name is `<u64>.log`.
pub open spec fn log_generation(name: Seq<char>) -> Option<u64> {
    if name.len() >= 4 && name.subrange(name.len() - 4, name.len() as int) == log_extension() {
        u64_literal(name.subrange(0, name.len() - 4))
    } else {
        None
    }
}

/// The path of `name` in the directory `dir`: `name` itself when `dir` is
/// empty, and otherwise `dir`, then a `/` unless `dir` ends with one, then
/// `name`.
pub open spec fn joined(dir: Seq<char>, name: Seq<char>) -> Seq<char> {
    if dir.len() == 0 {
        name
    } else if dir.last() == '/' {
        dir + name
    } else {
        dir + seq!['/'] + name
    }
}

/// Relies on the `Display` of `u64`: its decimal digits, without sign or
/// leading zeros.
#[verifier::external_body]
fn decimal_string(n: u64) -> (r: String)
    ensures
        r@ == decimal(n as nat),
{
    n.to_string()
}

/// Relies on `u64::from_str`: it accepts an optional `+` and then one or more
/// ASCII digits whose value fits a `u64`, and nothing else.
#[verifier::external_body]
fn parse_u64(s: &str) -> (r: Option<u64>)
    ensures
        r == u64_literal(s@),
{
    s.parse::<u64>().ok()
}

/// The path of the log file of generation `gen` in the directory `dir`.
pub fn log_path(dir: &str, gen: u64) -> (r: String)
    ensures
        r@ == joined(dir@, log_file_name(gen)),
{
    proof {
        reveal_strlit(".log");
        reveal_strlit("/");
    }
    let name = decimal_string(gen).concat(".log");
    assert(".log"@ =~= log_extension());
    let n = dir.unicode_len();
    if n == 0 {
        name
    } else if dir.get_char(n - 1) == '/' {
        String::from_str(dir).concat(name.as_str())
    } else {
        String::from_str(dir).concat("/").concat(name.as_str())
    }
}

/// The generation of the log file named `name`, when the name is `<u64>.log`.
pub fn parse_log_name(name: &str) -> (r: Option<u64>)
    ensures
        r == log_generation(name@),
{
    let n = name.unicode_len();
    if n < 4 {
        return None;
    }
    if name.get_char(n - 4) != '.' || name.get_char(n - 3) != 'l' || name.get_char(n - 2) != 'o'
        || name.get_char(n - 1) != 'g' {
        proof {
            let t = name@.subrange(n - 4, n as int);
            if t == log_extension() {
                assert(t[0] == name@[n - 4]);
                assert(t[1] == name@[n - 3]);
                assert(t[2] == name@[n - 2]);
                assert(t[3] == name@[n - 1]);
            }
        }
        return None;
    }
    assert(name@.subrange(n - 4, n as int) =~= log_extension());
    let stem = name.substring_char(0, n - 4);
    parse_u64(stem)
}

/// The generations of the log files among `names`, ascending, each once.
pub fn sorted_gen_list(names: &Vec<String>) -> (r: Vec<u64>)
    ensures
        forall|a: int, b: int| 0 <= a < b < r@.len() ==> r@[a] < r@[b],
        forall|g: u64|
            r@.contains(g) <==> exists|j: int|
                0 <= j < names@.len() && log_generation(#[trigger] names@[j]@) == Some(g),
{
    let mut r: Vec<u64> = Vec::new();
    let mut i: usize = 0;
    while i < names.len()
        invariant
            i <= names@.len(),
            forall|a: int, b: int| 0 <= a < b < r@.len() ==> r@[a] < r@[b],
            forall|g: u64|
                r@.contains(g) <==> exists|j: int|
                    0 <= j < i && log_generation(#[trigger] names@[j]@) == Some(g),
        decreases names@.len() - i,
    {
        let found = parse_log_name(names[i].as_str());
        let ghost old_r = r@;
        match found {
            None => {},
            Some(g) => {
                let mut p: usize = 0;
                while p < r.len() && r[p] < g
                    invariant
                        p <= r@.len(),
                        forall|q: int| 0 <= q < p ==> r@[q] < g,
                    decreases r@.len() - p,
                {
                    p = p + 1;
                }
                if p == r.len() || r[p] != g {
                    r.insert(p, g);
                    proof {
                        assert(r@ =~= old_r.subrange(0, p as int).push(g) + old_r.subrange(
                            p as int,
                            old_r.len() as int,
                        ));
                        assert forall|a: int, b: int| 0 <= a < b < r@.len() implies r@[a] < r@[b] by {
                            if b < p {
                            } else if b == p {
                            } else if a < p {
                                assert(old_r[a] < g);
                                assert(r@[b] == old_r[b - 1]);
                                assert(old_r[p as int] <= old_r[b - 1]) by {
                                    if p < b - 1 {
                                        assert(old_r[p as int] < old_r[b - 1]);
                                    }
                                }
                                assert(old_r[p as int] >= g);
                            } else if a == p {
                                assert(old_r[p as int] >= g);
                                assert(old_r[p as int] != g);
                                assert(old_r[p as int] <= old_r[b - 1]) by {
                                    if p < b - 1 {
                                        assert(old_r[p as int] < old_r[b - 1]);
                                    }
                                }
                            } else {
                                assert(r@[a] == old_r[a - 1]);
                                assert(r@[b] == old_r[b - 1]);
                            }
                        }
                        assert forall|h: u64| r@.contains(h) implies old_r.contains(h) || h == g by {
                            let x = choose|x: int| 0 <= x < r@.len() && r@[x] == h;
                            if x < p {
                                assert(old_r[x] == h);
                            } else if x > p {
                                assert(old_r[x - 1] == h);
                            }
                        }
                        assert forall|h: u64| old_r.contains(h) implies r@.contains(h) by {
                            let x = choose|x: int| 0 <= x < old_r.len() && old_r[x] == h;
                            if x < p {
                                assert(r@[x] == h);
                            } else {
                                assert(r@[x + 1] == h);
                            }
                        }
                        assert(r@[p as int] == g);
                    }
                } else {
                    assert(r@[p as int] == g);
                    assert(r@.contains(g));
                }
            },
        }
        proof {
            assert(forall|h: u64| r@.contains(h) <==> old_r.contains(h) || found == Some(h));
            assert forall|g: u64|
                r@.contains(g) <==> exists|j: int|
                    0 <= j < i + 1 && log_generation(#[trigger] names@[j]@) == Some(g) by {
                if exists|j: int| 0 <= j < i + 1 && log_generation(#[trigger] names@[j]@) == Some(g) {
                    let j = choose|j: int| 0 <= j < i + 1 && log_generation(#[trigger] names@[j]@) == Some(g);
                    if j < i {
                        assert(old_r.contains(g));
                    }
                }
                if r@.contains(g) {
                    if old_r.contains(g) {
                        let j = choose|j: int| 0 <= j < i && log_generation(#[trigger] names@[j]@) == Some(g);
                        assert(0 <= j < i + 1 && log_generation(names@[j]@) == Some(g));
                    } else {
                        assert(found == Some(g));
                        assert(log_generation(names@[i as int]@) == Some(g));
                    }
                }
            }
        }
        i = i + 1;
    }
    r
}

/// The generations among `gens` that lie below `safe_point`, in their order:
/// the logs that a finished compaction leaves to delete.
pub fn stale_generations(gens: &Vec<u64>, safe_point: u64) -> (r: Vec<u64>)
    ensures
        r@ == gens@.filter(|g: u64| g < safe_point),
{
    let mut r: Vec<u64> = Vec::new();
    let mut i: usize = 0;
    while i < gens.len()
        invariant
            i <= gens@.len(),
            r@ == gens@.subrange(0, i as int).filter(|g: u64| g < safe_point),
        decreases gens@.len() - i,
    {
        proof {
            reveal(Seq::filter);
            assert(gens@.subrange(0, i + 1).drop_last() =~= gens@.subrange(0, i as int));
        }
        if gens[i] < safe_point {
            r.push(gens[i]);
        }
        i = i + 1;
    }
    assert(gens@.subrange(0, i as int) =~= gens@);
    r
}

/// A log file's name gives back its generation.
pub proof fn law_log_name_round_trip(gen: u64)
    ensures
        log_generation(log_file_name(gen)) == Some(gen),
{
    let name = log_file_name(gen);
    let d = decimal(gen as nat);
    lemma_decimal(gen as nat);
    assert(name.subrange(name.len() - 4, name.len() as int) =~= log_extension());
    assert(name.subrange(0, name.len() - 4) =~= d);
}

/// The character of a digit is that digit's ASCII code.
pub proof fn lemma_digit_char(d: nat)
    requires
        d < 10,
    ensures
        digit_char(d) as nat == 48 + d,
        is_digit(digit_char(d)),
{
}

/// The decimal digits of `n` are digits, do not start with `+`, and write `n`.
pub proof fn lemma_decimal(n: nat)
    ensures
        decimal(n).len() > 0,
        forall|i: int| 0 <= i < decimal(n).len() ==> is_digit(#[trigger] decimal(n)[i]),
        decimal(n)[0] != '+',
        digits_value(decimal(n)) == n,
    decreases n,
{
    lemma_digit_char(n % 10);
    if n >= 10 {
        lemma_decimal(n / 10);
        let s = decimal(n / 10);
        assert(decimal(n).drop_last() =~= s);
        assert(decimal(n).last() == digit_char(n % 10));
        assert(digits_value(decimal(n)) == digits_value(s) * 10 + (n % 10));
        assert(n == (n / 10) * 10 + n % 10);
        assert(decimal(n)[0] == s[0]);
    } else {
        assert(decimal(n).drop_last() =~= Seq::<char>::empty());
        assert(decimal(n).last() == digit_char(n));
        assert(digits_value(Seq::<char>::empty()) == 0);
        assert(digits_value(decimal(n)) == digits_value(decimal(n).drop_last()) * 10 + (n % 10));
    }
}

} // verus!
