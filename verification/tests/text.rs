use snp_sampler::text::{chars_of, split_fields, text_of};

fn split(text: &str, sep: char) -> Vec<String> {
    let chars: Vec<char> = text.chars().collect();
    split_fields(&chars, sep)
}

#[test]
fn characters_of_a_text() {
    assert_eq!(chars_of(""), Vec::<char>::new());
    assert_eq!(chars_of("a\tb"), vec!['a', '\t', 'b']);
    assert_eq!(chars_of("héλ"), vec!['h', 'é', 'λ']);
}

#[test]
fn text_of_a_stretch_of_characters() {
    let chars = vec!['c', 'h', 'r', '1', 'é'];
    assert_eq!(text_of(&chars, 0, 5), "chr1é");
    assert_eq!(text_of(&chars, 1, 3), "hr");
    assert_eq!(text_of(&chars, 2, 2), "");
    assert_eq!(text_of(&chars, 5, 5), "");
}

#[test]
fn fields_of_a_text() {
    assert_eq!(split("a\tb\tc", '\t'), vec!["a", "b", "c"]);
    assert_eq!(split("abc", '\t'), vec!["abc"]);
    assert_eq!(split("", '\t'), vec![""]);
    assert_eq!(split("\t", '\t'), vec!["", ""]);
    assert_eq!(split("a\t\tb", '\t'), vec!["a", "", "b"]);
    assert_eq!(split("\ta", '\t'), vec!["", "a"]);
    assert_eq!(split("a\t", '\t'), vec!["a", ""]);
    assert_eq!(split("x_y_chr1_100_z", '_'), vec!["x", "y", "chr1", "100", "z"]);
}

#[test]
fn fields_agree_with_the_standard_split() {
    for text in ["", "_", "__", "a", "a_", "_a", "a_b", "a__b_", "é_λ__", "no separator at all"] {
        let expected: Vec<String> = text.split('_').map(str::to_owned).collect();
        assert_eq!(split(text, '_'), expected);
    }
}
