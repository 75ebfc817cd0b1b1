use multi_buffer::{Buffer, MultiBuffer};

#[test]
fn test_insert_excerpts() {
    let buffer1 = Buffer::local(1, "abcdefghijklmnopqrstuvwxyz");
    let mut multibuffer = MultiBuffer::new();
    multibuffer.insert_excerpts(vec![(buffer1.clone(), 0..2), (buffer1.clone(), 4..12)]);
    assert_eq!(multibuffer.snapshot().text(), "\nab\nefghijkl");

    multibuffer.insert_excerpts(vec![(buffer1.clone(), 4..6), (buffer1.clone(), 8..10)]);
    assert_eq!(multibuffer.snapshot().text(), "\nab\nefghijkl");

    multibuffer.insert_excerpts(vec![(buffer1.clone(), 10..14), (buffer1.clone(), 16..18)]);
    assert_eq!(multibuffer.snapshot().text(), "\nab\nefghijklmn\nqr");

    multibuffer.insert_excerpts(vec![(buffer1.clone(), 12..17)]);
    assert_eq!(multibuffer.snapshot().text(), "\nab\nefghijklmnopqr");
}

struct Rng(u64);

impl Rng {
    fn next(&mut self) -> u64 {
        self.0 = self
            .0
            .wrapping_mul(6364136223846793005)
            .wrapping_add(1442695040888963407);
        self.0 >> 33
    }

    fn gen_range(&mut self, low: usize, high_inclusive: usize) -> usize {
        low + (self.next() as usize) % (high_inclusive - low + 1)
    }
}

const WORDS: &[&str] = &[
    "apple", "banana", "cherry", "date", "elderberry", "fig", "grape", "honeydew", "kiwi",
    "lemon", "mango", "nectarine", "orange", "papaya", "quince", "raspberry", "strawberry",
    "tangerine", "ugli", "vanilla", "watermelon", "xigua", "yuzu", "zucchini", "apricot",
    "blackberry", "coconut", "dragonfruit", "eggplant", "feijoa", "guava", "hazelnut",
    "jackfruit", "kumquat", "lime", "mulberry", "nance", "olive", "peach", "rambutan",
];

#[test]
fn test_insert_random_excerpts() {
    for seed in 0..1000u64 {
        let mut rng = Rng(seed);
        let mut pool: Vec<&str> = WORDS.to_vec();
        let mut random_words = Vec::new();
        for _ in 0..10 {
            let i = rng.gen_range(0, pool.len() - 1);
            random_words.push(pool.remove(i));
        }
        let content = random_words.join(" ");
        let buffer = Buffer::local(1, &content);
        let buffer_len = buffer.len();

        let mut generate_excerpts = |rng: &mut Rng| {
            let mut ranges = Vec::new();
            for _ in 0..5 {
                let start = rng.gen_range(0, buffer_len);
                let end = rng.gen_range(start, buffer_len);
                ranges.push(start..end);
            }
            ranges
        };
        let excerpts1 = generate_excerpts(&mut rng);
        let excerpts2 = generate_excerpts(&mut rng);

        let mut multibuffer = MultiBuffer::new();
        multibuffer.insert_excerpts(excerpts1.iter().map(|r| (buffer.clone(), r.clone())).collect());
        multibuffer.insert_excerpts(excerpts2.iter().map(|r| (buffer.clone(), r.clone())).collect());

        let mut excerpt_ranges = excerpts1.iter().chain(&excerpts2).cloned().collect::<Vec<_>>();
        excerpt_ranges.sort_by_key(|range| (range.start, range.end));
        excerpt_ranges.dedup_by(|a, b| {
            if a.start <= b.end && b.start <= a.end {
                b.start = a.start.min(b.start);
                b.end = a.end.max(b.end);
                true
            } else {
                false
            }
        });
        let expected_text = excerpt_ranges
            .into_iter()
            .filter_map(|range| {
                if range.is_empty() {
                    None
                } else {
                    Some(format!("\n{}", &content[range]))
                }
            })
            .collect::<String>();
        assert_eq!(multibuffer.snapshot().text(), expected_text);
    }
}
