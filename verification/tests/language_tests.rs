use storystats::language_parsing::tokenise;
use storystats::language_parsing::Splitter;
use storystats::utils::strip_leading_trailing;
use storystats::utils::unidecode;

#[test]
fn basic_tokenising() {
    let input = "the cat sat on the mat";
    assert_eq!(
        tokenise(input),
        vec!["the", "cat", "sat", "on", "the", "mat"]
    );
}

#[test]
fn tokenising_with_formatting() {
    let input = "the cat \"sat\" on **the** mat";
    assert_eq!(
        tokenise(input),
        vec!["the", "cat", "sat", "on", "the", "mat"]
    );
}

#[test]
fn tokenising_with_apostrophes() {
    let input = "the cats, they're sat on the mat";
    assert_eq!(
        tokenise(input),
        vec!["the", "cats", "they're", "sat", "on", "the", "mat"]
    );
}

#[test]
fn tokenising_empty_input() {
    let input = "";
    assert_eq!(tokenise(input), Vec::<&str>::new());
}

#[test]
fn tokenising_only_separators() {
    assert_eq!(tokenise(" ,.!?;:()*-\t\n"), Vec::<&str>::new());
}

#[test]
fn splitter_matches_the_fixed_set() {
    for c in [' ', ',', '.', '!', '?', ';', '"', ':', '\t', '\n', '(', ')', '*', '-'] {
        assert!(Splitter::is_match(c));
    }
    assert!(!Splitter::is_match('\''));
    assert!(!Splitter::is_match('a'));
}

#[test]
fn apostrophes_stripped_once_per_end() {
    assert_eq!(Splitter::strip_leading_trailing_apostrophes("'sat'"), "sat");
    assert_eq!(Splitter::strip_leading_trailing_apostrophes("they're"), "they're");
    assert_eq!(Splitter::strip_leading_trailing_apostrophes("''sat''"), "'sat'");
    assert_eq!(Splitter::strip_leading_trailing_apostrophes("'"), "");
}

#[test]
fn strip_leading_trailing_other_delimiters() {
    assert_eq!(strip_leading_trailing("\"quoted\"", '"'), "quoted");
    assert_eq!(strip_leading_trailing("plain", '"'), "plain");
    assert_eq!(strip_leading_trailing("\"half", '"'), "half");
}

#[test]
fn unicode_fudging() {
    let ex1 = String::from("ᴍᴜɴɪᴄɪᴘᴀʟ");
    let ex2 = String::from("hello world");
    let ex3 = String::from("bónjourúo");
    let ex4 = "Ana bursts into the underground parking lot and narrows her eyes at the trundling cube of an automated ticket-bot speeding towards her bike like an angry hornet. The second-hand Suzuki Mirage has sleek, if slightly chipped lines that are undermined somewhat by the bulky Noodle King insulation box tied to the back. It is a fast vehicle, and only it's well-worn appearance is enough to make it not too unlikely for a delivery driver. Brightly coloured holostickers and graphics cluster around the front of the short screen, and it looked like the ticket-bot wants to add another. Ana speeds up and kicks the hapless robot in the side, rushing to start the vehicle and get out as the bot splutters an indignant *Tʜɪs ʙᴏᴛ ɪs. ᴘʀᴏᴘᴇʀᴛʏ ᴏғ ᴛʜᴇ. ᴍᴜɴᴄɪᴘɪᴀʟ ᴄᴏᴜɴᴄɪʟ ᴀɴᴅ. ᴠᴀɴᴅᴀʟɪsᴍ. ᴍᴀʏ ɪɴᴄᴜʀ ᴀ ғɪɴᴇ*.\n\nFlicking her rigger interface from a pocket inside her jacket, Ana clips it in below the handles of the bike as she slides into traffic, turning to grab her helmet as the AR interface provided by her glasses lets her drive the bike with a flick of her eyes. It's only a short ride from the apartment building, and she quickly finds a convenient spot off the motorway junction for a swift departure, opening the Noodle King box for the drones. There were small ones, no bigger than a soyrizo ball or the size of her palm, but today she'd want something a little larger. The Lockheed Optic-X2 had cost her three times as much as the bike, and for good reason. No bigger than a cyberdeck when fully folded, it neatly fitted inside a noodle box with a little padding and-\n\n- the waft of fragrant steam is unexpected as she breaks the seal on the branded packaging. *Oh no. Oh fuck oh fuck oh fuck.* Udon noodles with sweet and sour Royal soyChik'n. With extra onions. Ana's stomach drops like a stone, a sick churning feeling inside. *Fuuuuuuuuuuuuck*. She starts the bike again with a grim expression.\n**Oculus** 19:51: *Drone issue. Won't be long.*";
    let exp4 = "Ana bursts into the underground parking lot and narrows her eyes at the trundling cube of an automated ticket-bot speeding towards her bike like an angry hornet. The second-hand Suzuki Mirage has sleek, if slightly chipped lines that are undermined somewhat by the bulky Noodle King insulation box tied to the back. It is a fast vehicle, and only it's well-worn appearance is enough to make it not too unlikely for a delivery driver. Brightly coloured holostickers and graphics cluster around the front of the short screen, and it looked like the ticket-bot wants to add another. Ana speeds up and kicks the hapless robot in the side, rushing to start the vehicle and get out as the bot splutters an indignant *This bot is. property of the. muncipial council and. vandalism. may incur a fine*.\n\nFlicking her rigger interface from a pocket inside her jacket, Ana clips it in below the handles of the bike as she slides into traffic, turning to grab her helmet as the AR interface provided by her glasses lets her drive the bike with a flick of her eyes. It's only a short ride from the apartment building, and she quickly finds a convenient spot off the motorway junction for a swift departure, opening the Noodle King box for the drones. There were small ones, no bigger than a soyrizo ball or the size of her palm, but today she'd want something a little larger. The Lockheed Optic-X2 had cost her three times as much as the bike, and for good reason. No bigger than a cyberdeck when fully folded, it neatly fitted inside a noodle box with a little padding and-\n\n- the waft of fragrant steam is unexpected as she breaks the seal on the branded packaging. *Oh no. Oh fuck oh fuck oh fuck.* Udon noodles with sweet and sour Royal soyChik'n. With extra onions. Ana's stomach drops like a stone, a sick churning feeling inside. *Fuuuuuuuuuuuuck*. She starts the bike again with a grim expression.\n**Oculus** 19:51: *Drone issue. Won't be long.*";
    let out1 = unidecode(&ex1);
    let out2 = unidecode(&ex2);
    let out3 = unidecode(&ex3);
    let out4 = unidecode(ex4);
    assert_eq!(out1, Some(String::from("municipal")));
    assert_eq!(out2, Some(String::from("hello world")));
    assert_eq!(out3, Some(String::from("bonjouruo")));
    assert_eq!(out4, Some(String::from(exp4)));
}
