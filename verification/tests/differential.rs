use std::collections::BTreeMap;

use keyed_stats::batch::summarize;
use keyed_stats::error::AggregateError;

struct Dice(u64);

impl Dice {
    fn roll(&mut self, sides: u64) -> u64 {
        self.0 = self.0.wrapping_mul(6364136223846793005).wrapping_add(1442695040888963407);
        (self.0 >> 33) % sides
    }
}

fn tenths(t: i64) -> String {
    let sign = if t < 0 { "-" } else { "" };
    format!("{}{}.{}", sign, t.abs() / 10, t.abs() % 10)
}

fn value_of(text: &[u8]) -> Option<i64> {
    let (negative, digits) = match text.first() {
        Some(b'-') => (true, &text[1..]),
        _ => (false, text),
    };
    if digits.len() < 3 || digits.len() > 5 {
        return None;
    }
    let (whole, tail) = digits.split_at(digits.len() - 2);
    if tail[0] != b'.' || !tail[1].is_ascii_digit() || !whole.iter().all(u8::is_ascii_digit) {
        return None;
    }
    let mut t: i64 = 0;
    for b in whole {
        t = t * 10 + (b - b'0') as i64;
    }
    t = t * 10 + (tail[1] - b'0') as i64;
    Some(if negative { -t } else { t })
}

/// The line or the error, worked out line by line with a sorted map.
fn plain_summary(input: &[u8]) -> Result<Vec<u8>, AggregateError> {
    let mut store: BTreeMap<Vec<u8>, (i64, i64, i64, i64)> = BTreeMap::new();
    let mut pos = 0;
    while pos < input.len() {
        let line_end = input[pos..].iter().position(|&b| b == b'\n').map(|n| pos + n);
        let field = input[pos..].iter().position(|&b| b == b';').map(|n| pos + n);
        let key_end = match (field, line_end) {
            (Some(f), Some(l)) if l < f => return Err(AggregateError::Parse { offset: l }),
            (Some(f), _) => f,
            (None, Some(l)) => return Err(AggregateError::Parse { offset: l }),
            (None, None) => return Err(AggregateError::TruncatedInput { offset: pos }),
        };
        if key_end == pos {
            return Err(AggregateError::EmptyKey { offset: pos });
        }
        let value_end = match line_end {
            Some(l) => l,
            None => return Err(AggregateError::TruncatedInput { offset: pos }),
        };
        let value = match value_of(&input[key_end + 1..value_end]) {
            Some(v) => v,
            None => return Err(AggregateError::Parse { offset: key_end + 1 }),
        };
        let entry = store.entry(input[pos..key_end].to_vec()).or_insert((value, value, 0, 0));
        entry.0 = entry.0.min(value);
        entry.1 = entry.1.max(value);
        entry.2 += value;
        entry.3 += 1;
        pos = value_end + 1;
    }
    let mut line = vec![b'{'];
    for (n, (key, (min, max, sum, count))) in store.iter().enumerate() {
        if n > 0 {
            line.push(b',');
        }
        line.extend_from_slice(key);
        line.push(b'=');
        let mean = (2 * sum + count).div_euclid(2 * count);
        line.extend_from_slice(
            format!("{}/{}/{}", tenths(*min), tenths(mean), tenths(*max)).as_bytes(),
        );
    }
    line.push(b'}');
    Ok(line)
}

fn random_input(dice: &mut Dice, records: u64, keys: u64) -> Vec<u8> {
    let mut input = Vec::new();
    for _ in 0..records {
        let key = dice.roll(keys);
        for n in 0..1 + key % 5 {
            input.push(b'a' + ((key >> n) % 4) as u8);
        }
        if key % 7 == 0 {
            input.extend_from_slice(&[0xc3, 0xa9]);
        }
        input.push(b';');
        let value = dice.roll(19999) as i64 - 9999;
        input.extend_from_slice(tenths(value).as_bytes());
        input.push(b'\n');
    }
    input
}

#[test]
fn random_inputs_are_summarized_as_a_sorted_map_does_it() {
    let mut dice = Dice(1);
    for round in 0..300 {
        let input = random_input(&mut dice, round % 60, 1 + round % 23);
        assert_eq!(summarize(&input), plain_summary(&input), "round {}", round);
    }
}

#[test]
fn random_damage_is_refused_as_a_line_by_line_reading_refuses_it() {
    let mut dice = Dice(7);
    let spoilers = [b';', b'\n', b'-', b'.', b'x', b'0'];
    for round in 0..2000 {
        let mut input = random_input(&mut dice, 1 + round % 12, 5);
        for _ in 0..1 + dice.roll(2) {
            let at = dice.roll(input.len() as u64) as usize;
            match dice.roll(3) {
                0 => input[at] = spoilers[dice.roll(6) as usize],
                1 => {
                    input.remove(at);
                }
                _ => input.insert(at, spoilers[dice.roll(6) as usize]),
            }
        }
        assert_eq!(
            summarize(&input),
            plain_summary(&input),
            "round {}: {:?}",
            round,
            String::from_utf8_lossy(&input)
        );
    }
}
