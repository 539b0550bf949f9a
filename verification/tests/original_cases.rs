use regex_postfix::infix::infix_to_postfix;

#[test]
fn regex_or_1_test() {
    assert_eq!("ab|", infix_to_postfix("a|b"));
}

#[test]
fn regex_or_2_test() {
    assert_eq!("ab|c|", infix_to_postfix("a|b|c"));
}

#[test]
fn regex_or_3_test() {
    assert_eq!("xab#|", infix_to_postfix("x|ab"));
}

#[test]
fn regex_or_4_test() {
    assert_eq!("xa|", infix_to_postfix("x|(a)"));
}

#[test]
fn regex_or_5_test() {
    assert_eq!("xab#|", infix_to_postfix("x|(a)(b)"));
}

#[test]
fn regex_or_6_test() {
    assert_eq!("ab#cd#|", infix_to_postfix("ab|cd"));
}

#[test]
fn regex_or_7_test() {
    assert_eq!("ab#cd#|", infix_to_postfix("(ab)|(cd)"));
}

#[test]
fn regex_or_8_test() {
    assert_eq!("ab#+cd#|", infix_to_postfix("(ab)+|(cd)"));
}

#[test]
fn regex_or_9_test() {
    assert_eq!("ab#cd#+|", infix_to_postfix("(ab)|(cd)+"));
}

#[test]
fn regex_or_10_test() {
    assert_eq!("ab#+cd#+|", infix_to_postfix("(ab)+|(cd)+"));
}

#[test]
fn regex_or_11_test() {
    assert_eq!("ab#+c?d#+|", infix_to_postfix("(ab)+|(c?d)+"));
}

#[test]
fn regex_1_test() {
    assert_eq!("a", infix_to_postfix("a"));
}

#[test]
fn regex_2_test() {
    assert_eq!("ab#", infix_to_postfix("ab"));
}

#[test]
fn regex_3_test() {
    assert_eq!("ab#c#", infix_to_postfix("abc"));
}

#[test]
fn regex_4_test() {
    assert_eq!("a+", infix_to_postfix("a+"));
}

#[test]
fn regex_5_test() {
    assert_eq!("a*", infix_to_postfix("a*"));
}

#[test]
fn regex_6_test() {
    assert_eq!("[a-z]", infix_to_postfix("[a-z]"));
}

#[test]
fn regex_7_test() {
    assert_eq!("[a-z]x#", infix_to_postfix("[a-z]x"));
}

#[test]
fn regex_8_test() {
    assert_eq!("x[a-z]#", infix_to_postfix("x[a-z]"));
}

#[test]
fn regex_9_test() {
    assert_eq!("[a-z]x#[a-z]#", infix_to_postfix("[a-z]x[a-z]"));
}

#[test]
fn regex_10_test() {
    assert_eq!("[a-z][0-9]#", infix_to_postfix("[a-z][0-9]"));
}

#[test]
fn regex_11_test() {
    assert_eq!("[a-z]+", infix_to_postfix("[a-z]+"));
}

#[test]
fn regex_12_test() {
    assert_eq!("[a-z]*", infix_to_postfix("[a-z]*"));
}

#[test]
fn regex_13_test() {
    assert_eq!("[a-z]?", infix_to_postfix("[a-z]?"));
}

#[test]
fn regex_14_test() {
    assert_eq!("[a-z]{3}", infix_to_postfix("[a-z]{3}"));
}

#[test]
fn regex_15_test() {
    assert_eq!("[a-z]{3,4}", infix_to_postfix("[a-z]{3,4}"));
}

#[test]
fn regex_16_test() {
    assert_eq!("[a-z]+[0-9]#", infix_to_postfix("[a-z]+[0-9]"));
}

#[test]
fn regex_17_test() {
    assert_eq!("[a-z]*[0-9]#", infix_to_postfix("[a-z]*[0-9]"));
}

#[test]
fn regex_18_test() {
    assert_eq!("[a-z]?[0-9]#", infix_to_postfix("[a-z]?[0-9]"));
}

#[test]
fn regex_19_test() {
    assert_eq!("[a-z]{3}[0-9]#", infix_to_postfix("[a-z]{3}[0-9]"));
}

#[test]
fn regex_20_test() {
    assert_eq!("[a-z]{3,4}[0-9]#", infix_to_postfix("[a-z]{3,4}[0-9]"));
}

#[test]
fn regex_21_test() {
    assert_eq!("a{3}", infix_to_postfix("a{3}"));
}

#[test]
fn regex_22_test() {
    assert_eq!("a{3,4}", infix_to_postfix("a{3,4}"));
}

#[test]
fn regex_23_test() {
    assert_eq!("[a-z][0-9]#", infix_to_postfix("[a-z][0-9]"));
}

#[test]
fn regex_24_test() {
    assert_eq!("a{3,4}", infix_to_postfix("a{3,4}"));
}

#[test]
fn regex_25_test() {
    assert_eq!("[a-z][0-9]#", infix_to_postfix("[a-z][0-9]"));
}

#[test]
fn regex_26_test() {
    assert_eq!("[a-z]+[0-9]+#", infix_to_postfix("[a-z]+[0-9]+"));
}

#[test]
fn regex_27_test() {
    assert_eq!("[a-z]{3,4}[0-9]{3,4}#", infix_to_postfix("[a-z]{3,4}[0-9]{3,4}"));
}

#[test]
fn regex_28_test() {
    assert_eq!("[a-z][0-9]{2,3}#", infix_to_postfix("[a-z][0-9]{2,3}"));
}

#[test]
fn regex_29_test() {
    assert_eq!("ab+#", infix_to_postfix("ab+"));
}

#[test]
fn regex_30_test() {
    assert_eq!("b[a-c]#b#b#l#e#", infix_to_postfix("b[a-c]bble"));
}

#[test]
fn regex_31_test() {
    assert_eq!("[a-z][0-9]{2,3}+#", infix_to_postfix("[a-z][0-9]{2,3}+"));
}

#[test]
fn regex_32_test() {
    assert_eq!("[a-z]+[0-9]#", infix_to_postfix("[a-z]+[0-9]"));
}

#[test]
fn regex_33_test() {
    assert_eq!("a?", infix_to_postfix("a?"));
}

#[test]
fn regex_34_test() {
    assert_eq!("ab#c+#", infix_to_postfix("abc+"));
}

#[test]
fn regex_35_test() {
    assert_eq!("ab#c?#", infix_to_postfix("abc?"));
}

#[test]
fn regex_36_test() {
    assert_eq!("d+c*#", infix_to_postfix("d+c*"));
}

#[test]
fn regex_37_test() {
    assert_eq!("a", infix_to_postfix("(a)"));
}

#[test]
fn regex_38_test() {
    assert_eq!("ab#", infix_to_postfix("(ab)"));
}

#[test]
fn regex_39_test() {
    assert_eq!("ab#", infix_to_postfix("(a)(b)"));
}

#[test]
fn regex_42_test() {
    assert_eq!("ab#", infix_to_postfix("(a(b))"));
}

#[test]
fn regex_43_test() {
    assert_eq!("ab#c#", infix_to_postfix("(a(b)c)"));
}

#[test]
fn regex_46_test() {
    assert_eq!("a+", infix_to_postfix("(a)+"));
}

#[test]
fn regex_47_test() {
    assert_eq!("ab#+", infix_to_postfix("(ab)+"));
}

#[test]
fn regex_48_test() {
    assert_eq!("ab#+", infix_to_postfix("(a(b))+"));
}

#[test]
fn regex_49_test() {
    assert_eq!("ab+#+", infix_to_postfix("(a(b)+)+"));
}

#[test]
fn regex_50_test() {
    assert_eq!("ab#cd#+#e#f#", infix_to_postfix("(ab(cd)+ef)"));
}

#[test]
fn regex_51_test() {
    assert_eq!("ab#cd#+#e#f#+", infix_to_postfix("(ab(cd)+ef)+"));
}

#[test]
fn regex_58_test() {
    assert_eq!("ab#", infix_to_postfix("a(b)"));
}

#[test]
fn regex_60_test() {
    assert_eq!("d+c*#", infix_to_postfix("(d+c*)"));
}

#[test]
fn regex_61_test() {
    assert_eq!("cd+c*##", infix_to_postfix("c(d+c*)"));
}

#[test]
fn regex_62_test() {
    assert_eq!("ab#", infix_to_postfix("a(b)"));
}

#[test]
fn regex_63_test() {
    assert_eq!("cd+c*##b#c#", infix_to_postfix("c(d+c*)bc"));
}
