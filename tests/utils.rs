use poker_solver::utils;

#[test]
fn prettify() {
    let output = utils::prettify("3s2c4h6sAd");
    let expected = "3‚ôÝ2‚ô£4‚ô•6‚ôÝA‚ô¶";
    assert_eq!(output, expected);
    let output = utils::prettify("QsQcQhKsKd");
    let expected = "Q‚ôÝQ‚ô£Q‚ô•K‚ôÝK‚ô¶";
    assert_eq!(output, expected);
    let output = utils::prettify("");
    let expected = "";
    assert_eq!(output, expected);
    let output = utils::prettify("2s2c2d2h");
    let expected = "2‚ôÝ2‚ô£2‚ô¶2‚ô•";
    assert_eq!(output, expected);
    let output = utils::prettify("2s3s4s5s6s7s8s9sTsJsQsKsAs");
    let expected = "2‚ôÝ3‚ôÝ4‚ôÝ5‚ôÝ6‚ôÝ7‚ôÝ8‚ôÝ9‚ôÝ10‚ôÝJ‚ôÝQ‚ôÝK‚ôÝA‚ôÝ";
    assert_eq!(output, expected);
}

#[test]
fn prettify_keeps_other_characters() {
    assert_eq!(utils::prettify("9x"), "9x");
    assert_eq!(utils::prettify("T"), "10");
}
