use pseudodouble::pseudo_double::PseudoDouble;

// Each test pins the exact result word for words of numbers spread over many
// magnitudes and both signs.

#[test]
fn negation_words() {
    let cases: [(i64, i64); 60] = [
        (0i64, 0i64),
        (4611686018427420674i64, -9223372036854743039i64),
        (-9223372036854743039i64, 4611686018427420674i64),
        (4611686018427420673i64, -9223372036854743040i64),
        (-9223372036854743040i64, 4611686018427420673i64),
        (4611686018427420675i64, -9223372036854743038i64),
        (6917529027641114627i64, -6917529027641049085i64),
        (-6917529027641049085i64, 6917529027641114627i64),
        (8070450532247961604i64, -8070450532247896060i64),
        (6917529027641114625i64, -6917529027641049087i64),
        (-6917529027641049087i64, 6917529027641114625i64),
        (6917529027641114626i64, -6917529027641049086i64),
        (-6917529027641049086i64, 6917529027641114626i64),
        (5764607523034267651i64, -5764607523034202109i64),
        (-5764607523034202109i64, 5764607523034267651i64),
        (5764607523034267653i64, -5764607523034202107i64),
        (7378697629483827198i64, -7378697629483761666i64),
        (-7378697629483761666i64, 7378697629483827198i64),
        (6044629098073128945i64, -6044629098073063439i64),
        (-6044629098073063439i64, 6044629098073128945i64),
        (8687499202136866834i64, -8687499202136801262i64),
        (-6949999425041301486i64, 6949999425041367058i64),
        (7244019458077130755i64, -7244019458077065213i64),
        (6267931151224897539i64, -6267931151224831997i64),
        (5368709120000032803i64, -5368709119999967197i64),
        (-5368709119999967197i64, 5368709120000032803i64),
        (6148914691236528128i64, -6148914691236462592i64),
        (4611686018427420690i64, -9223372036854743023i64),
        (6805647338418765759i64, -6805647338418700353i64),
        (4611686018427420676i64, -9223372036854743037i64),
        (4611686018427420672i64, -9223372036854743041i64),
        (-9223372036854743041i64, 4611686018427420672i64),
        (9223371136134840331i64, -9223371136134774773i64),
        (-9223372036854743029i64, 4611686018427420684i64),
        (9223370192180379648i64, -9223370192180314112i64),
        (4611686940764569601i64, -4611686940764504063i64),
        (-9223370192180314112i64, 9223370192180379648i64),
        (-4611686940764504063i64, 4611686940764569601i64),
        (-8257567860547158044i64, 8257567860547223524i64),
        (7382726457448824836i64, -7382726457448759292i64),
        (8385467011604381690i64, -8385467011604316166i64),
        (-6467032802182594543i64, 6467032802182660113i64),
        (-8179886494835900432i64, 8179886494835965936i64),
        (6902298239758598145i64, -6902298239758532607i64),
        (4690517942345367541i64, -4690517942345302027i64),
        (8445051253489106933i64, -8445051253489041419i64),
        (-5613230734335115284i64, 5613230734335180780i64),
        (6990206877904633870i64, -6990206877904568306i64),
        (6426364484170645493i64, -6426364484170579979i64),
        (-6805842897769824275i64, 6805842897769889773i64),
        (-8935966612880588793i64, 8935966612880654343i64),
        (-6261452564458012652i64, 6261452564458078228i64),
        (-8822603764993982438i64, 8822603764994048026i64),
        (6738489187050291218i64, -6738489187050225646i64),
        (-4689738606787133448i64, 4689738606787198968i64),
        (5115916010487840759i64, -5115916010487775241i64),
        (-6007380382947770351i64, 6007380382947835921i64),
        (-7444468777501163529i64, 7444468777501229047i64),
        (6982674514343723005i64, -6982674514343657475i64),
        (6631753616527360008i64, -6631753616527294456i64),
    ];
    for (a, expected) in cases {
        assert_eq!(PseudoDouble(a).const_neg().0, expected, "input word {}", a);
    }
}

#[test]
fn floor_words() {
    let cases: [(i64, i64); 60] = [
        (0i64, 0i64),
        (4611686018427420674i64, 4611686018427420674i64),
        (-9223372036854743039i64, -9223372036854743039i64),
        (4611686018427420673i64, 0i64),
        (-9223372036854743040i64, -9223372036854743039i64),
        (4611686018427420675i64, 4611686018427420675i64),
        (6917529027641114627i64, 6917529027641114627i64),
        (-6917529027641049085i64, -6917529027641049085i64),
        (8070450532247961604i64, 8070450532247961604i64),
        (6917529027641114625i64, 0i64),
        (-6917529027641049087i64, -9223372036854743039i64),
        (6917529027641114626i64, 4611686018427420674i64),
        (-6917529027641049086i64, -9223372036854743038i64),
        (5764607523034267651i64, 4611686018427420675i64),
        (-5764607523034202109i64, -6917529027641049085i64),
        (5764607523034267653i64, 5764607523034267653i64),
        (7378697629483827198i64, 0i64),
        (-7378697629483761666i64, -9223372036854743039i64),
        (6044629098073128945i64, 0i64),
        (-6044629098073063439i64, -9223372036854743039i64),
        (8687499202136866834i64, 8687443681197719570i64),
        (-6949999425041301486i64, -6950039387451129838i64),
        (7244019458077130755i64, 6917529027641114627i64),
        (6267931151224897539i64, 4611686018427420675i64),
        (5368709120000032803i64, 5368709120000032803i64),
        (-5368709119999967197i64, -5368709119999967197i64),
        (6148914691236528128i64, 0i64),
        (4611686018427420690i64, 4611686018427420690i64),
        (6805647338418765759i64, 0i64),
        (4611686018427420676i64, 4611686018427420676i64),
        (4611686018427420672i64, 0i64),
        (-9223372036854743041i64, -9223372036854743039i64),
        (9223371136134840331i64, 9214364837600067595i64),
        (-9223372036854743029i64, -9223372036854743029i64),
        (9223370192180379648i64, 0i64),
        (4611686940764569601i64, 0i64),
        (-9223370192180314112i64, -9223372036854743039i64),
        (-4611686940764504063i64, -9223372036854743039i64),
        (-8257567860547158044i64, -9223372036854743039i64),
        (7382726457448824836i64, 6917529027641114628i64),
        (8385467011604381690i64, 0i64),
        (-6467032802182594543i64, -6467169064903999471i64),
        (-8179886494835900432i64, -9223372036854743039i64),
        (6902298239758598145i64, 0i64),
        (4690517942345367541i64, 0i64),
        (8445051253489106933i64, 0i64),
        (-5613230734335115284i64, -9223372036854743039i64),
        (6990206877904633870i64, 6989586621679042574i64),
        (6426364484170645493i64, 0i64),
        (-6805842897769824275i64, -9223372036854743039i64),
        (-8935966612880588793i64, -9079256848778887161i64),
        (-6261452564458012652i64, -6261463633486643180i64),
        (-8822603764993982438i64, -8822603896821088230i64),
        (6738489187050291218i64, 6738440573708959762i64),
        (-4689738606787133448i64, -9223372036854743039i64),
        (5115916010487840759i64, 0i64),
        (-6007380382947770351i64, -6007520427935498223i64),
        (-7444468777501163529i64, -9223372036854743039i64),
        (6982674514343723005i64, 0i64),
        (6631753616527360008i64, 6629298651489402888i64),
    ];
    for (a, expected) in cases {
        assert_eq!(PseudoDouble(a).floor().0, expected, "input word {}", a);
    }
}

#[test]
fn ceil_words() {
    let cases: [(i64, i64); 60] = [
        (0i64, 0i64),
        (4611686018427420674i64, 4611686018427420674i64),
        (-9223372036854743039i64, -9223372036854743039i64),
        (4611686018427420673i64, 4611686018427420674i64),
        (-9223372036854743040i64, 0i64),
        (4611686018427420675i64, 4611686018427420675i64),
        (6917529027641114627i64, 6917529027641114627i64),
        (-6917529027641049085i64, -6917529027641049085i64),
        (8070450532247961604i64, 8070450532247961604i64),
        (6917529027641114625i64, 4611686018427420674i64),
        (-6917529027641049087i64, 0i64),
        (6917529027641114626i64, 4611686018427420675i64),
        (-6917529027641049086i64, -9223372036854743039i64),
        (5764607523034267651i64, 6917529027641114627i64),
        (-5764607523034202109i64, -9223372036854743038i64),
        (5764607523034267653i64, 5764607523034267653i64),
        (7378697629483827198i64, 4611686018427420674i64),
        (-7378697629483761666i64, 0i64),
        (6044629098073128945i64, 4611686018427420674i64),
        (-6044629098073063439i64, 0i64),
        (8687499202136866834i64, 8687514049941897234i64),
        (-6949999425041301486i64, -6949969018706952174i64),
        (7244019458077130755i64, 4611686018427420676i64),
        (6267931151224897539i64, 6917529027641114627i64),
        (5368709120000032803i64, 5368709120000032803i64),
        (-5368709119999967197i64, -5368709119999967197i64),
        (6148914691236528128i64, 4611686018427420674i64),
        (4611686018427420690i64, 4611686018427420690i64),
        (6805647338418765759i64, 4611686018427420674i64),
        (4611686018427420676i64, 4611686018427420676i64),
        (4611686018427420672i64, 4611686018427420674i64),
        (-9223372036854743041i64, 0i64),
        (9223371136134840331i64, 4611686018427420684i64),
        (-9223372036854743029i64, -9223372036854743029i64),
        (9223370192180379648i64, 4611686018427420674i64),
        (4611686940764569601i64, 4611686018427420674i64),
        (-9223370192180314112i64, 0i64),
        (-4611686940764504063i64, 0i64),
        (-8257567860547158044i64, 0i64),
        (7382726457448824836i64, 8070450532247961604i64),
        (8385467011604381690i64, 4611686018427420674i64),
        (-6467032802182594543i64, -6467028327415644143i64),
        (-8179886494835900432i64, 0i64),
        (6902298239758598145i64, 4611686018427420674i64),
        (4690517942345367541i64, 4611686018427420674i64),
        (8445051253489106933i64, 4611686018427420674i64),
        (-5613230734335115284i64, 0i64),
        (6990206877904633870i64, 6990712521585885198i64),
        (6426364484170645493i64, 4611686018427420674i64),
        (-6805842897769824275i64, 0i64),
        (-8935966612880588793i64, -8935141660703031289i64),
        (-6261452564458012652i64, -6261446041300598764i64),
        (-8822603764993982438i64, -8822603621943181286i64),
        (6738489187050291218i64, 6738510942453137426i64),
        (-4689738606787133448i64, 0i64),
        (5115916010487840759i64, 4611686018427420674i64),
        (-6007380382947770351i64, -6007379690447142895i64),
        (-7444468777501163529i64, 0i64),
        (6982674514343723005i64, 4611686018427420674i64),
        (6631753616527360008i64, 6701356245527330824i64),
    ];
    for (a, expected) in cases {
        assert_eq!(PseudoDouble(a).ceil().0, expected, "input word {}", a);
    }
}

#[test]
fn round_words() {
    let cases: [(i64, i64); 60] = [
        (0i64, 0i64),
        (4611686018427420674i64, 4611686018427420674i64),
        (-9223372036854743039i64, -9223372036854743039i64),
        (4611686018427420673i64, 4611686018427420674i64),
        (-9223372036854743040i64, -9223372036854743039i64),
        (4611686018427420675i64, 4611686018427420675i64),
        (6917529027641114627i64, 6917529027641114627i64),
        (-6917529027641049085i64, -6917529027641049085i64),
        (8070450532247961604i64, 8070450532247961604i64),
        (6917529027641114625i64, 4611686018427420674i64),
        (-6917529027641049087i64, -9223372036854743039i64),
        (6917529027641114626i64, 4611686018427420675i64),
        (-6917529027641049086i64, -9223372036854743038i64),
        (5764607523034267651i64, 6917529027641114627i64),
        (-5764607523034202109i64, -6917529027641049085i64),
        (5764607523034267653i64, 5764607523034267653i64),
        (7378697629483827198i64, 0i64),
        (-7378697629483761666i64, 0i64),
        (6044629098073128945i64, 0i64),
        (-6044629098073063439i64, 0i64),
        (8687499202136866834i64, 8687514049941897234i64),
        (-6949999425041301486i64, -6949969018706952174i64),
        (7244019458077130755i64, 6917529027641114627i64),
        (6267931151224897539i64, 6917529027641114627i64),
        (5368709120000032803i64, 5368709120000032803i64),
        (-5368709119999967197i64, -5368709119999967197i64),
        (6148914691236528128i64, 0i64),
        (4611686018427420690i64, 4611686018427420690i64),
        (6805647338418765759i64, 0i64),
        (4611686018427420676i64, 4611686018427420676i64),
        (4611686018427420672i64, 0i64),
        (-9223372036854743041i64, 0i64),
        (9223371136134840331i64, 4611686018427420684i64),
        (-9223372036854743029i64, -9223372036854743029i64),
        (9223370192180379648i64, 0i64),
        (4611686940764569601i64, 4611686018427420674i64),
        (-9223370192180314112i64, 0i64),
        (-4611686940764504063i64, -9223372036854743039i64),
        (-8257567860547158044i64, 0i64),
        (7382726457448824836i64, 6917529027641114628i64),
        (8385467011604381690i64, 0i64),
        (-6467032802182594543i64, -6467028327415644143i64),
        (-8179886494835900432i64, 0i64),
        (6902298239758598145i64, 4611686018427420674i64),
        (4690517942345367541i64, 0i64),
        (8445051253489106933i64, 0i64),
        (-5613230734335115284i64, 0i64),
        (6990206877904633870i64, 6990712521585885198i64),
        (6426364484170645493i64, 0i64),
        (-6805842897769824275i64, 0i64),
        (-8935966612880588793i64, -8935141660703031289i64),
        (-6261452564458012652i64, -6261446041300598764i64),
        (-8822603764993982438i64, -8822603896821088230i64),
        (6738489187050291218i64, 6738510942453137426i64),
        (-4689738606787133448i64, 0i64),
        (5115916010487840759i64, 0i64),
        (-6007380382947770351i64, -6007379690447142895i64),
        (-7444468777501163529i64, 0i64),
        (6982674514343723005i64, 0i64),
        (6631753616527360008i64, 6629298651489402888i64),
    ];
    for (a, expected) in cases {
        assert_eq!(PseudoDouble(a).round().0, expected, "input word {}", a);
    }
}

#[test]
fn sqrt_words() {
    let cases: [(i64, i64); 42] = [
        (0i64, 0i64),
        (4611686018427420674i64, 4611686018427420674i64),
        (4611686018427420673i64, 6521908912666411009i64),
        (4611686018427420675i64, 6521908912666411010i64),
        (6917529027641114627i64, 7987674492471246850i64),
        (8070450532247961604i64, 6100687164736241667i64),
        (6917529027641114625i64, 7987674492471246849i64),
        (6917529027641114626i64, 5648138799537225730i64),
        (5764607523034267651i64, 7291715835891908610i64),
        (5764607523034267653i64, 7291715835891908611i64),
        (7378697629483827198i64, 5833372668713533440i64),
        (6044629098073128945i64, 7466717015953276921i64),
        (8687499202136866834i64, 6329614412078612490i64),
        (7244019458077130755i64, 8174000642528739330i64),
        (6267931151224897539i64, 7603384832371621890i64),
        (5368709120000032803i64, 7036874417766367250i64),
        (6148914691236528128i64, 5325116328314175489i64),
        (4611686018427420690i64, 4611686018427420682i64),
        (6805647338418765759i64, 7922816251426406368i64),
        (4611686018427420676i64, 4611686018427420675i64),
        (4611686018427420672i64, 4611686018427420673i64),
        (9223371136134840331i64, 9223371586494758918i64),
        (9223370192180379648i64, 6521908260475469825i64),
        (4611686940764569601i64, 6521909564857221121i64),
        (7382726457448824836i64, 5834964985472516099i64),
        (8385467011604381690i64, 6218612463837872126i64),
        (6902298239758598145i64, 7978876147341885441i64),
        (4690517942345367541i64, 6577415299933044731i64),
        (8445051253489106933i64, 8825635930698514427i64),
        (6990206877904633870i64, 5677731882076438536i64),
        (6426364484170645493i64, 7698879819943673851i64),
        (6738489187050291218i64, 5574566922124427274i64),
        (5115916010487840759i64, 6869206407877918716i64),
        (6982674514343723005i64, 8025198119551729663i64),
        (6631753616527360008i64, 5530240992126337029i64),
        (9064716256157532157i64, 9143700040960802815i64),
        (8820025748809220079i64, 9019444487101513720i64),
        (8188868669433282540i64, 6145282023598555127i64),
        (5203078405421826059i64, 6927476298777985030i64),
        (5745141042627379224i64, 5147308677374771213i64),
        (6033673968401416165i64, 7459947704887181299i64),
        (7269397715943456774i64, 5790006891965153284i64),
    ];
    for (a, expected) in cases {
        assert_eq!(PseudoDouble(a).sqrt().0, expected, "input word {}", a);
    }
}

#[test]
fn inv_sqrt_words() {
    let cases: [(i64, i64); 41] = [
        (4611686018427420674i64, 4611686018427420674i64),
        (4611686018427420673i64, 6521908912666411010i64),
        (4611686018427420675i64, 6521908912666411009i64),
        (6917529027641114627i64, 5325116328314175489i64),
        (8070450532247961604i64, 6972213902555709440i64),
        (6917529027641114625i64, 5325116328314175490i64),
        (6917529027641114626i64, 7530851732716290049i64),
        (5764607523034267651i64, 5833372668713533441i64),
        (5764607523034267653i64, 5833372668713533440i64),
        (7378697629483827198i64, 7291715835891908611i64),
        (6044629098073128945i64, 5696652996790550538i64),
        (8687499202136866834i64, 6720045344934166521i64),
        (7244019458077130755i64, 5203730428379103233i64),
        (6267931151224897539i64, 5594257926288605185i64),
        (5368709120000032803i64, 6044629098073128945i64),
        (6148914691236528128i64, 7987674492471246850i64),
        (4611686018427420690i64, 4611686018427420666i64),
        (6805647338418765759i64, 5368709120000032803i64),
        (4611686018427420676i64, 4611686018427420673i64),
        (4611686018427420672i64, 4611686018427420675i64),
        (9223371136134840331i64, 4611686243607412733i64),
        (9223370192180379648i64, 6521909564857417730i64),
        (4611686940764569601i64, 6521908260475666434i64),
        (7382726457448824836i64, 7289725983106760704i64),
        (8385467011604381690i64, 6839997847183130629i64),
        (6902298239758598145i64, 5330988359718764546i64),
        (4690517942345367541i64, 6466870940253716488i64),
        (8445051253489106933i64, 4819516259124805640i64),
        (6990206877904633870i64, 7491599946695802875i64),
        (6426364484170645493i64, 5524868144445030408i64),
        (6738489187050291218i64, 7630242216001110009i64),
        (5115916010487840759i64, 6192170294422372359i64),
        (6982674514343723005i64, 5300217543725056004i64),
        (6631753616527360008i64, 7691400053935603710i64),
        (9064716256157532157i64, 4651869120221904900i64),
        (8820025748809220079i64, 4715955170625617931i64),
        (8188868669433282540i64, 6921618194539708428i64),
        (5203078405421826059i64, 6140085368840683517i64),
        (5745141042627379224i64, 8263599199341412342i64),
        (6033673968401416165i64, 5701822257715183632i64),
        (7269397715943456774i64, 7346329056040288255i64),
    ];
    for (a, expected) in cases {
        assert_eq!(PseudoDouble(a).inv_sqrt().0, expected, "input word {}", a);
    }
}

#[test]
fn exp2_words() {
    let cases: [(i64, i64); 60] = [
        (0i64, 4611686018427420674i64),
        (4611686018427420674i64, 4611686018427420675i64),
        (-9223372036854743039i64, 4611686018427420673i64),
        (4611686018427420673i64, 6521908912666411010i64),
        (-9223372036854743040i64, 6521908912666411009i64),
        (4611686018427420675i64, 4611686018427420676i64),
        (6917529027641114627i64, 4611686018427420677i64),
        (-6917529027641049085i64, 4611686018427420671i64),
        (8070450532247961604i64, 4611686018427420681i64),
        (6917529027641114625i64, 7755900482342518786i64),
        (-6917529027641049087i64, 5484249825272430593i64),
        (6917529027641114626i64, 6521908912666411011i64),
        (-6917529027641049086i64, 6521908912666411008i64),
        (5764607523034267651i64, 6521908912666411012i64),
        (-5764607523034202109i64, 6521908912666411007i64),
        (5764607523034267653i64, 4611686018427420684i64),
        (7378697629483827198i64, 4942682692100128770i64),
        (-7378697629483761666i64, 8605710403603562497i64),
        (6044629098073128945i64, 4611717984309772290i64),
        (-6044629098073063439i64, 9223308105533128705i64),
        (7244019458077130755i64, 5087253357257392133i64),
        (6267931151224897539i64, 7587244978410389508i64),
        (6148914691236528128i64, 5810360290122563586i64),
        (6805647338418765759i64, 4611686018427420674i64),
        (4611686018427420676i64, 4611686018427420678i64),
        (4611686018427420672i64, 5484249825272430594i64),
        (-9223372036854743041i64, 7755900482342518785i64),
        (9223371136134840331i64, 9222732743548634113i64),
        (-9223372036854743029i64, 4611686018427419650i64),
        (9223370192180379648i64, 6521908460602097666i64),
        (4611686940764569601i64, 6521909364730658818i64),
        (-9223370192180314112i64, 6521909364730658817i64),
        (-4611686940764504063i64, 6521908460602163201i64),
        (-8257567860547158044i64, 9223372026193543169i64),
        (7382726457448824836i64, 6099913325003505672i64),
        (8385467011604381690i64, 4634446542728364034i64),
        (-8179886494835900432i64, 9223328779317182465i64),
        (6902298239758598145i64, 7747028068179804162i64),
        (4690517942345367541i64, 4612082912859684866i64),
        (8445051253489106933i64, 4612400632317509634i64),
        (-5613230734335115284i64, 9223370181579276289i64),
        (6990206877904633870i64, 6756108448192829506i64),
        (6426364484170645493i64, 4612229802489643010i64),
        (-6805842897769824275i64, 9223367537944199169i64),
        (-8935966612880588793i64, 9186848493283868611i64),
        (-4689738606787133448i64, 9217025238936944641i64),
        (5115916010487840759i64, 4613417829238538242i64),
        (-7444468777501163529i64, 9218334240769277953i64),
        (6982674514343723005i64, 4765444322510995458i64),
        (6631753616527360008i64, 4721887848400322654i64),
        (9064716256157532157i64, 4812275367579582466i64),
        (-5357422199536779273i64, 9219746302328864769i64),
        (8820025748809220079i64, 4611697679162900482i64),
        (-8660079249757798409i64, 9217511878286737409i64),
        (-4918913039175548954i64, 9223372011451809793i64),
        (-5161067452453257218i64, 8786866561949466625i64),
        (-8662629688403722234i64, 8881233867176640483i64),
        (-4943427215108046840i64, 6069006464728661949i64),
        (-7538402616458772502i64, 9223371413959704577i64),
        (8188868669433282540i64, 4611687371713183746i64),
    ];
    for (a, expected) in cases {
        assert_eq!(PseudoDouble(a).exp2().0, expected, "input word {}", a);
    }
}

#[test]
fn log2_words() {
    let cases: [(i64, i64); 41] = [
        (4611686018427420674i64, 0i64),
        (4611686018427420673i64, -9223372036854743039i64),
        (4611686018427420675i64, 4611686018427420674i64),
        (6917529027641114627i64, 7309349404307456002i64),
        (8070450532247961604i64, 6473319721408167939i64),
        (6917529027641114625i64, -7656090530189246464i64),
        (6917529027641114626i64, 5395326771760168961i64),
        (5764607523034267651i64, 6096317312558399490i64),
        (5764607523034267653i64, 7659844674706571267i64),
        (7378697629483827198i64, -7659844674706571261i64),
        (6044629098073128945i64, -4787402921691611130i64),
        (8687499202136866834i64, 4875026735507341318i64),
        (7244019458077130755i64, 7616181609774415874i64),
        (6267931151224897539i64, 6653256548922130434i64),
        (5368709120000032803i64, 4787402921691611143i64),
        (6148914691236528128i64, -7309349404307455998i64),
        (4611686018427420690i64, 4611686018427420678i64),
        (6805647338418765759i64, -4787402921691611128i64),
        (4611686018427420676i64, 4611686018427420675i64),
        (4611686018427420672i64, -9223372036854743038i64),
        (9223371136134840331i64, 5764607441817731077i64),
        (9223370192180379648i64, -4611687349078818814i64),
        (4611686940764569601i64, -9223369375552602111i64),
        (7382726457448824836i64, 6177029250545188867i64),
        (8385467011604381690i64, -8228865587931873276i64),
        (6902298239758598145i64, -7714750817784070144i64),
        (4690517942345367541i64, -7479893615940829179i64),
        (8445051253489106933i64, -6990847983047311355i64),
        (6990206877904633870i64, 7263429033975382021i64),
        (6426364484170645493i64, -7218033108417871867i64),
        (6738489187050291218i64, 4769385756060975110i64),
        (5115916010487840759i64, -6254773088060407803i64),
        (6982674514343723005i64, -5074600796611969020i64),
        (6631753616527360008i64, 7521770711034724356i64),
        (9064716256157532157i64, -4640546445986136060i64),
        (8820025748809220079i64, -5206740922879344634i64),
        (8188868669433282540i64, -6102306919421476858i64),
        (5203078405421826059i64, 5288491959977279493i64),
        (5745141042627379224i64, 6432451145197191174i64),
        (6033673968401416165i64, -8246921756171075578i64),
        (7269397715943456774i64, 5368626886534332420i64),
    ];
    for (a, expected) in cases {
        assert_eq!(PseudoDouble(a).log2().0, expected, "input word {}", a);
    }
}

#[test]
fn sin_rev_words() {
    let cases: [(i64, i64); 60] = [
        (0i64, 0i64),
        (4611686018427420674i64, 0i64),
        (-9223372036854743039i64, 0i64),
        (4611686018427420673i64, 0i64),
        (-9223372036854743040i64, 0i64),
        (4611686018427420675i64, 0i64),
        (6917529027641114627i64, 0i64),
        (-6917529027641049085i64, 0i64),
        (8070450532247961604i64, 0i64),
        (6917529027641114625i64, -9223372036854743039i64),
        (-6917529027641049087i64, 4611686018427420674i64),
        (6917529027641114626i64, 0i64),
        (-6917529027641049086i64, 0i64),
        (5764607523034267651i64, 0i64),
        (-5764607523034202109i64, 0i64),
        (5764607523034267653i64, 0i64),
        (7378697629483827198i64, 5421362059670028289i64),
        (-7378697629483761666i64, -5421362059670028287i64),
        (6044629098073128945i64, 4747440588921667572i64),
        (-6044629098073063439i64, -4747440588921602060i64),
        (8687499202136866834i64, -8947838524056698879i64),
        (-6949999425041301486i64, -7633330279033176064i64),
        (7244019458077130755i64, 7165206262545874945i64),
        (6267931151224897539i64, -9040815295829016575i64),
        (5368709120000032803i64, 0i64),
        (-5368709119999967197i64, 0i64),
        (6148914691236528128i64, 7987674492471312385i64),
        (4611686018427420690i64, 0i64),
        (6805647338418765759i64, 0i64),
        (4611686018427420676i64, 0i64),
        (4611686018427420672i64, 4611686018427420674i64),
        (-9223372036854743041i64, -9223372036854743039i64),
        (9223371136134840331i64, -5934300631459528713i64),
        (-9223372036854743029i64, 0i64),
        (9223370192180379648i64, 6076724028830154733i64),
        (4611686940764569601i64, -6076723597051658259i64),
        (-9223370192180314112i64, -6076724028830089235i64),
        (-4611686940764504063i64, 6076723597051723757i64),
        (-8257567860547158044i64, -6485478631819673625i64),
        (7382726457448824836i64, 5256233689025839105i64),
        (8385467011604381690i64, 6583744453901647869i64),
        (-6467032802182594543i64, -7321458114034696193i64),
        (-8179886494835900432i64, -6424467827908378637i64),
        (6902298239758598145i64, -9222875580747382783i64),
        (4690517942345367541i64, 7367847607307763703i64),
        (8445051253489106933i64, 6632725563537784824i64),
        (-5613230734335115284i64, -8817242218940039186i64),
        (6990206877904633870i64, -5799275453473587200i64),
        (6426364484170645493i64, 5047253902252867576i64),
        (-6805842897769824275i64, -5345296512261783568i64),
        (-8935966612880588793i64, -5306582992673406979i64),
        (-6261452564458012652i64, -6691784329319645183i64),
        (-8822603764993982438i64, 4719586345819471871i64),
        (6738489187050291218i64, -8593414755971530751i64),
        (-4689738606787133448i64, -7366576374290481158i64),
        (5115916010487840759i64, 8036046563637755897i64),
        (-6007380382947770351i64, -9123484973139787780i64),
        (-7444468777501163529i64, -5846848204124553222i64),
        (6982674514343723005i64, 5403748480789807104i64),
        (6631753616527360008i64, 7837421870473314303i64),
    ];
    for (a, expected) in cases {
        assert_eq!(PseudoDouble(a).sin_rev().0, expected, "input word {}", a);
    }
}

#[test]
fn cos_rev_words() {
    let cases: [(i64, i64); 60] = [
        (0i64, 4611686018427420674i64),
        (4611686018427420674i64, 4611686018427420674i64),
        (-9223372036854743039i64, 4611686018427420674i64),
        (4611686018427420673i64, -9223372036854743039i64),
        (-9223372036854743040i64, -9223372036854743039i64),
        (4611686018427420675i64, 4611686018427420674i64),
        (6917529027641114627i64, 4611686018427420674i64),
        (-6917529027641049085i64, 4611686018427420674i64),
        (8070450532247961604i64, 4611686018427420674i64),
        (6917529027641114625i64, 0i64),
        (-6917529027641049087i64, 0i64),
        (6917529027641114626i64, -9223372036854743039i64),
        (-6917529027641049086i64, -9223372036854743039i64),
        (5764607523034267651i64, -9223372036854743039i64),
        (-5764607523034202109i64, -9223372036854743039i64),
        (5764607523034267653i64, 4611686018427420674i64),
        (7378697629483827198i64, 7461864723258179585i64),
        (-7378697629483761666i64, 7461864723258179585i64),
        (6044629098073128945i64, 9223372018648580097i64),
        (-6044629098073063439i64, 9223372018648580097i64),
        (8687499202136866834i64, 8950331817439625215i64),
        (-6949999425041301486i64, -8396645695933218815i64),
        (7244019458077130755i64, 5807788817218502657i64),
        (6267931151224897539i64, -7303972088598462465i64),
        (5368709120000032803i64, 4611686018427420674i64),
        (-5368709119999967197i64, 4611686018427420674i64),
        (6148914691236528128i64, -9223372036854677504i64),
        (4611686018427420690i64, 4611686018427420674i64),
        (6805647338418765759i64, 4611686018427420674i64),
        (4611686018427420676i64, 4611686018427420674i64),
        (4611686018427420672i64, 0i64),
        (-9223372036854743041i64, 0i64),
        (9223371136134840331i64, 9223370216233992193i64),
        (-9223372036854743029i64, 4611686018427420674i64),
        (9223370192180379648i64, -9223372036852973567i64),
        (4611686940764569601i64, -9223372036852973567i64),
        (-9223370192180314112i64, -9223372036852973567i64),
        (-4611686940764504063i64, -9223372036852973567i64),
        (-8257567860547158044i64, 9223372036854743041i64),
        (7382726457448824836i64, -7579089598136745983i64),
        (8385467011604381690i64, 9214188657968316417i64),
        (-6467032802182594543i64, 9039931273135423489i64),
        (-8179886494835900432i64, 9223372028519612417i64),
        (6902298239758598145i64, -6124553320117927941i64),
        (4690517942345367541i64, 9223369230376402945i64),
        (8445051253489106933i64, 9223362939301101569i64),
        (-5613230734335115284i64, 9223372036839473153i64),
        (6990206877904633870i64, -8755723430072451071i64),
        (6426364484170645493i64, 9223366768793911297i64),
        (-6805842897769824275i64, 9223372036764631041i64),
        (-8935966612880588793i64, 9217407033510756353i64),
        (-6261452564458012652i64, -6347488812129288191i64),
        (-8822603764993982438i64, -9147591801972097023i64),
        (6738489187050291218i64, -6700392395102126080i64),
        (-4689738606787133448i64, 9223192482493988865i64),
        (5115916010487840759i64, 9223318618993819649i64),
        (-6007380382947770351i64, 9218964401834393601i64),
        (-7444468777501163529i64, 9223258925386792961i64),
        (6982674514343723005i64, 8818756563105972225i64),
        (6631753616527360008i64, 9012852926889951233i64),
    ];
    for (a, expected) in cases {
        assert_eq!(PseudoDouble(a).cos_rev().0, expected, "input word {}", a);
    }
}

#[test]
fn sum_words() {
    let cases: [(i64, i64, i64); 120] = [
        (6902298239758598145i64, 5764607523034267653i64, 6196001163019190277i64),
        (-7444468777501163529i64, 7244019458077130755i64, 7242201960817000451i64),
        (6631753616527360008i64, -6819195788751765487i64, -6806243144969453551i64),
        (-5613230734335115284i64, 6148914691236528128i64, 6148909338042597376i64),
        (8687499202136866834i64, 6917529027641114626i64, 8687604755253133330i64),
        (-6949999425041301486i64, -4689738606787133448i64, -6949999494923845614i64),
        (6917529027641114627i64, -4918913039175548954i64, 6917529018478985219i64),
        (-8179886494835900432i64, -8360636109096517608i64, -8360636109103923176i64),
        (6902298239758598145i64, 6917529027641114625i64, 6909913633699823618i64),
        (-6949999425041301486i64, -8822603764993982438i64, -8849752200248000486i64),
        (4611686018427420675i64, -9223370192180314112i64, 6917529488809820162i64),
        (8445051253489106933i64, 7244019458077130755i64, 7244534903099981827i64),
        (-9223370192180314112i64, 4611686940764569601i64, 7737125061072551915i64),
        (-8360636109096517608i64, -8660079249757798409i64, -8360636110104657896i64),
        (-6819195788751765487i64, 6148914691236528128i64, -6819148876255625199i64),
        (6917529027641114627i64, -8360636109096517608i64, -8360632810561634280i64),
        (4611686018427420675i64, 4611686940764569601i64, 5764607753618554883i64),
        (-5613230734335115284i64, -6917529027641049087i64, -6917531704237981695i64),
        (6426364484170645493i64, 5115916010487840759i64, 6722507131530543095i64),
        (-6467032802182594543i64, 6902298239758598145i64, -6466927481469698031i64),
        (-8454891310276640779i64, 6917529027641114627i64, 6917012982028926979i64),
        (-7444468777501163529i64, 4611686018427420690i64, 9223371925923594257i64),
        (5764607523034267651i64, 4611686018427420675i64, 5188146770730844164i64),
        (-5764607523034202109i64, 9223370192180379648i64, -4611686249011642365i64),
        (5115916010487840759i64, -8179886494835900432i64, 5052010647246962679i64),
        (-5161067452453257218i64, 6033673968401416165i64, -5161067272635711490i64),
        (-5368709119999967197i64, 6426364484170645493i64, -5368709119999836125i64),
        (-6467032802182594543i64, -6044629098073063439i64, -6467032803589914607i64),
        (7378697629483827198i64, -8257567860547158044i64, 7378697506436513790i64),
        (4611686018427420676i64, 5745141042627379224i64, 5745145440673890328i64),
        (7244019458077130755i64, 6044629098073128945i64, 7244042516507230211i64),
        (8070450532247961604i64, -6917529027641049086i64, 6341068275337691140i64),
        (-5161067452453257218i64, 5368709120000032803i64, 5368709119962546211i64),
        (-7444468777501163529i64, 6033673968401416165i64, -7444445760861536265i64),
        (-6805842897769824275i64, 7382726457448824836i64, 7382725646129135620i64),
        (-6949999425041301486i64, -5613230734335115284i64, -6949999425061683182i64),
        (5745141042627379224i64, 7378697629483827198i64, 5745141152578568216i64),
        (5764607523034267653i64, 6148914691236528128i64, 5956761107135430661i64),
        (-4611686940764504063i64, -4689738606787133448i64, -4620846586480852991i64),
        (-8454891310276640779i64, -8822603764993982438i64, -8822603765055455206i64),
        (4611686018427420672i64, 8445051253489106933i64, 4615809578609836032i64),
        (5203078405421826059i64, -6007380382947770351i64, -5926082282863034351i64),
        (-6805842897769824275i64, -6261452564458012652i64, -6261452564470333420i64),
        (-6819195788751765487i64, 7378697629483827198i64, -6819181715002916847i64),
        (-8662629688403722234i64, -6917529027641049086i64, -9094975252631289850i64),
        (9064716256157532157i64, -4611686940764504063i64, -8090284349509304320i64),
        (8820025748809220079i64, -6261452564458012652i64, -6261452564393787372i64),
        (9223370192180379648i64, -8822603764993982438i64, -8822603627555028966i64),
        (5203078405421826059i64, -4918913039175548954i64, 5203078405386043403i64),
        (-7538402616458772502i64, 4611686018427420675i64, 9223371587531079682i64),
        (-5613230734335115284i64, 7382726457448824836i64, 7382726122874241028i64),
        (-4943427215108046840i64, 6805647338418765759i64, -4943427215108046840i64),
        (-4689738606787133448i64, -6819195788751765487i64, -6819195928516853743i64),
        (6426364484170645493i64, 7382726457448824836i64, 7382922574529069060i64),
        (5203078405421826059i64, 6805647338418765759i64, 5203078405421826059i64),
        (-9223370192180314112i64, -7824379150600929253i64, -7824379219320340453i64),
        (9064716256157532157i64, -8360636109096517608i64, -8360636041559113704i64),
        (5368709120000032803i64, -4943427215108046840i64, 5368709083168669731i64),
        (-6917529027641049087i64, 6917529027641114627i64, 5188146770730844163i64),
        (8820025748809220079i64, -6949999425041301486i64, -6949999424784596974i64),
        (6044629098073128945i64, -6917529027641049087i64, -6917436793920651263i64),
        (7382726457448824836i64, -8360636109096517608i64, -8360629068379881448i64),
        (4611686018427420676i64, 5764607523034267653i64, 8070450532247961605i64),
        (-6805842897769824275i64, -4611686940764504063i64, -4611693431322017791i64),
        (-4689738606787133448i64, 7378697629483827198i64, 7305420463752839166i64),
        (6990206877904633870i64, 4611686018427420674i64, 6991332777811476494i64),
        (6982674514343723005i64, -5357422199536779273i64, 6898964792476008445i64),
        (-4918913039175548954i64, -6917529027641049085i64, -6917529036803178493i64),
        (-6917529027641049085i64, -9223370192180314112i64, -8070450301663543293i64),
        (-8454891310276640779i64, 4611686018427420673i64, 9219243671957307392i64),
        (-6917529027641049086i64, -6819195788751765487i64, -6819406894984298479i64),
        (-6261452564458012652i64, 5368709120000032803i64, 5368518035632259107i64),
        (-8662629688403722234i64, 5764607523034267653i64, -5780325926886604794i64),
        (7378697629483827198i64, 6917529027641114626i64, 7378697629483892738i64),
        (6267931151224897539i64, -6805842897769824275i64, 6267929528585519107i64),
        (7382726457448824836i64, -7378697629483761666i64, 7267434306988179460i64),
        (6631753616527360008i64, 9064716256157532157i64, 6636179747511828488i64),
        (-7538402616458772502i64, 4611686018427420673i64, 9223370239559630848i64),
        (7244019458077130755i64, 5203078405421826059i64, 5231375356429959179i64),
        (5764607523034267651i64, -5613230734335115284i64, 5764606853885034499i64),
        (9064716256157532157i64, -6819195788751765487i64, -6819187143964655599i64),
        (-6007380382947770351i64, 6982674514343723005i64, -6007373723750399983i64),
        (8385467011604381690i64, 6990206877904633870i64, 6990214874909212686i64),
        (4611686018427420675i64, 6902298239758598145i64, 6337260578367111171i64),
        (-4689738606787133448i64, 8820025748809220079i64, -4672511993996476424i64),
        (6148914691236528128i64, 6917529027641114627i64, 7686143364045701123i64),
        (6917529027641114627i64, -8660079249757798409i64, 6915414750480531459i64),
        (-8822603764993982438i64, 4611686018427420672i64, -8822603696274505702i64),
        (-4918913039175548954i64, 6982674514343723005i64, 6982673927963639805i64),
        (8687499202136866834i64, 4690517942345367541i64, 8687499210873667602i64),
        (7269397715943456774i64, 4611686018427420676i64, 8422319220550303750i64),
        (5203078405421826059i64, 6982674514343723005i64, 5203504594051891211i64),
        (4611686018427420674i64, 0i64, 4611686018427420674i64),
        (7269397715943456774i64, -6044629098073063439i64, 7269394833639702534i64),
        (6426364484170645493i64, -8822603764993982438i64, -8822603764947189734i64),
        (-4943427215108046840i64, 6902298239758598145i64, -4889503010109882360i64),
        (-6805842897769824275i64, 9223370192180379648i64, 9223357211065286656i64),
        (8445051253489106933i64, 9223370192180379648i64, 4613746876181413889i64),
        (7244019458077130755i64, 4611686940764569601i64, 8396941193268264963i64),
        (7244019458077130755i64, -9223372036854743029i64, -9195075085846609909i64),
        (-8822603764993982438i64, 7269397715943456774i64, -8822596832356040678i64),
        (-6917529027641049086i64, 6738489187050291218i64, 6738383633934024722i64),
        (8445051253489106933i64, 4611686940764569601i64, 4613748720855777281i64),
        (5764607523034267653i64, -6044629098073063439i64, 5764601758426759173i64),
        (-9223372036854743039i64, 8445051253489106933i64, -9221310256763535359i64),
        (-8660079249757798409i64, 6990206877904633870i64, 6990205845542764558i64),
        (7244019458077130755i64, 4690517942345367541i64, 7244305744572678147i64),
        (5764607523034267653i64, -5161067452453257218i64, 5724286683562016773i64),
        (4690517942345367541i64, 4611686018427420672i64, 4613976310391472128i64),
        (6902298239758598145i64, 7382726457448824836i64, 8245513737418670084i64),
        (7378697629483827198i64, -9223372036854743040i64, -7378697629483761664i64),
        (6917529027641114626i64, 4611686018427420675i64, 8070450532247961603i64),
        (9064716256157532157i64, 4611686018427420672i64, 5744775550447157248i64),
        (-4943427215108046840i64, 5745141042627379224i64, 5745065611914280984i64),
        (-5357422199536779273i64, -4689738606787133448i64, -7368449706555506696i64),
        (-5613230734335115284i64, 8445051253489106933i64, 8434087912211120117i64),
        (9223370192180379648i64, 8070450532247961604i64, 8646911169259274244i64),
        (8070450532247961604i64, -6007380382947770351i64, -6006395220529283055i64),
        (-8179886494835900432i64, 4611686018427420675i64, 9223340833064255490i64),
        (-4943427215108046840i64, 5203078405421826059i64, 9170300007066664970i64),
    ];
    for (a, b, expected) in cases {
        assert_eq!(PseudoDouble(a).const_add(PseudoDouble(b)).0, expected, "input words {} {}", a, b);
    }
}

#[test]
fn difference_words() {
    let cases: [(i64, i64, i64); 120] = [
        (6902298239758598145i64, 5764607523034267653i64, -5333213883049279483i64),
        (-7444468777501163529i64, 7244019458077130755i64, -7245836955337195517i64),
        (6631753616527360008i64, -6819195788751765487i64, 6832148432534142993i64),
        (-5613230734335115284i64, 6148914691236528128i64, -6148920044430393344i64),
        (8687499202136866834i64, 6917529027641114626i64, 8687393649020600338i64),
        (-6949999425041301486i64, -4689738606787133448i64, -6949999355158691822i64),
        (6917529027641114627i64, -4918913039175548954i64, 6917529036803309571i64),
        (-8179886494835900432i64, -8360636109096517608i64, 8360636109089177624i64),
        (6902298239758598145i64, 6917529027641114625i64, -7798163395848405000i64),
        (-6949999425041301486i64, -8822603764993982438i64, 8795455329740029978i64),
        (4611686018427420675i64, -9223370192180314112i64, 5764607292449980419i64),
        (8445051253489106933i64, 7244019458077130755i64, -7243504013054214141i64),
        (-9223370192180314112i64, 4611686940764569601i64, -9223372036854677503i64),
        (-8360636109096517608i64, -8660079249757798409i64, -8360636108088311784i64),
        (-6819195788751765487i64, 6148914691236528128i64, -6819242701247840239i64),
        (6917529027641114627i64, -8360636109096517608i64, 8360639407631466520i64),
        (4611686018427420675i64, 4611686940764569601i64, 6917528566472540162i64),
        (-5613230734335115284i64, -6917529027641049087i64, 6917526351044182017i64),
        (6426364484170645493i64, 5115916010487840759i64, -7018649778890178570i64),
        (-6467032802182594543i64, 6902298239758598145i64, -6467138122895425519i64),
        (-8454891310276640779i64, 6917529027641114627i64, -6918045073253236733i64),
        (-7444468777501163529i64, 4611686018427420690i64, -4611686073892962286i64),
        (5764607523034267651i64, 4611686018427420675i64, 4611686018427420673i64),
        (-5764607523034202109i64, 9223370192180379648i64, -6917528797056696317i64),
        (5115916010487840759i64, -8179886494835900432i64, 5179821373728784375i64),
        (-5161067452453257218i64, 6033673968401416165i64, -5161067632270737410i64),
        (-5368709119999967197i64, 6426364484170645493i64, -5368709120000032733i64),
        (-6467032802182594543i64, -6044629098073063439i64, -6467032800775208943i64),
        (7378697629483827198i64, -8257567860547158044i64, 7378697752531206142i64),
        (4611686018427420676i64, 5745141042627379224i64, -5745136644580802536i64),
        (7244019458077130755i64, 6044629098073128945i64, 7243996399647096835i64),
        (8070450532247961604i64, -6917529027641049086i64, 4899916394579132421i64),
        (-5161067452453257218i64, 5368709120000032803i64, -5368709120037453789i64),
        (-7444468777501163529i64, 6033673968401416165i64, -7444491794140725257i64),
        (-6805842897769824275i64, 7382726457448824836i64, -7382727268768448508i64),
        (-6949999425041301486i64, -5613230734335115284i64, -6949999425020854254i64),
        (5745141042627379224i64, 7378697629483827198i64, 5745140932676255768i64),
        (5764607523034267653i64, 6148914691236528128i64, 5572453938933170181i64),
        (-4611686940764504063i64, -4689738606787133448i64, -9205054590096211968i64),
        (-8454891310276640779i64, -8822603764993982438i64, 8822603764932575258i64),
        (4611686018427420672i64, 8445051253489106933i64, 9215124916490108927i64),
        (5203078405421826059i64, -6007380382947770351i64, 6088678483032571921i64),
        (-6805842897769824275i64, -6261452564458012652i64, 6261452564445757460i64),
        (-6819195788751765487i64, 7378697629483827198i64, -6819209862500548591i64),
        (-8662629688403722234i64, -6917529027641049086i64, -8230284124176154618i64),
        (9064716256157532157i64, -4611686940764504063i64, 5178231706774437889i64),
        (8820025748809220079i64, -6261452564458012652i64, 6261452564522303508i64),
        (9223370192180379648i64, -8822603764993982438i64, 8822603902433001498i64),
        (5203078405421826059i64, -4918913039175548954i64, 5203078405457674251i64),
        (-7538402616458772502i64, 4611686018427420675i64, -4611686243089219581i64),
        (-5613230734335115284i64, 7382726457448824836i64, -7382726792023343100i64),
        (-4943427215108046840i64, 6805647338418765759i64, -4943427215108046840i64),
        (-4689738606787133448i64, -6819195788751765487i64, 6819195648986742801i64),
        (6426364484170645493i64, 7382726457448824836i64, -7382530340368515068i64),
        (5203078405421826059i64, 6805647338418765759i64, 5203078405421826059i64),
        (-9223370192180314112i64, -7824379150600929253i64, 7824379081881583643i64),
        (9064716256157532157i64, -8360636109096517608i64, 8360636176633987096i64),
        (5368709120000032803i64, -4943427215108046840i64, 5368709156831461411i64),
        (-6917529027641049087i64, 6917529027641114627i64, -8646911284551319549i64),
        (8820025748809220079i64, -6949999425041301486i64, 6949999425298071570i64),
        (6044629098073128945i64, -6917529027641049087i64, 6917621261361512449i64),
        (7382726457448824836i64, -8360636109096517608i64, 8360643149813219352i64),
        (4611686018427420676i64, 5764607523034267653i64, -6917529027641049084i64),
        (-6805842897769824275i64, -4611686940764504063i64, 9223360900414078976i64),
        (-4689738606787133448i64, 7378697629483827198i64, -7451974795214749698i64),
        (6990206877904633870i64, 4611686018427420674i64, 6989080977997791246i64),
        (6982674514343723005i64, -5357422199536779273i64, 7066384236211503101i64),
        (-4918913039175548954i64, -6917529027641049085i64, 6917529018478985219i64),
        (-6917529027641049085i64, -9223370192180314112i64, -5764607753618489341i64),
        (-8454891310276640779i64, 4611686018427420673i64, -4613750200876105727i64),
        (-6917529027641049086i64, -6819195788751765487i64, 6818984682519298065i64),
        (-6261452564458012652i64, 5368709120000032803i64, -5368900204367740893i64),
        (-8662629688403722234i64, 5764607523034267653i64, -5772466724960436217i64),
        (7378697629483827198i64, 6917529027641114626i64, -6456360425798270974i64),
        (6267931151224897539i64, -6805842897769824275i64, 6267932773864341507i64),
        (7382726457448824836i64, -7378697629483761666i64, 7498018607909535748i64),
        (6631753616527360008i64, 9064716256157532157i64, 6627327485542957064i64),
        (-7538402616458772502i64, 4611686018427420673i64, -4611686917074943999i64),
        (7244019458077130755i64, 5203078405421826059i64, -5174781454413627381i64),
        (5764607523034267651i64, -5613230734335115284i64, 5764608192183566339i64),
        (9064716256157532157i64, -6819195788751765487i64, 6819204433538940945i64),
        (-6007380382947770351i64, 6982674514343723005i64, -6007387042145075183i64),
        (8385467011604381690i64, 6990206877904633870i64, -6990198880899989490i64),
        (4611686018427420675i64, 6902298239758598145i64, 5772222916975558658i64),
        (-4689738606787133448i64, 8820025748809220079i64, -4706965219577724936i64),
        (6148914691236528128i64, 6917529027641114627i64, -6148914691236462589i64),
        (6917529027641114627i64, -8660079249757798409i64, 6919643304801763331i64),
        (-8822603764993982438i64, 4611686018427420672i64, -8822603833713459174i64),
        (-4918913039175548954i64, 6982674514343723005i64, -6982675100723740675i64),
        (8687499202136866834i64, 4690517942345367541i64, 8687499193400131602i64),
        (7269397715943456774i64, 4611686018427420676i64, 6116476211336609798i64),
        (5203078405421826059i64, 6982674514343723005i64, 5202652216791826443i64),
        (4611686018427420674i64, 0i64, 4611686018427420674i64),
        (7269397715943456774i64, -6044629098073063439i64, 7269400598247276550i64),
        (6426364484170645493i64, -8822603764993982438i64, 8822603765040840730i64),
        (-4943427215108046840i64, 6902298239758598145i64, -4997351420106145784i64),
        (-6805842897769824275i64, 9223370192180379648i64, -4611691586647719935i64),
        (8445051253489106933i64, 9223370192180379648i64, -9219246631997898752i64),
        (7244019458077130755i64, 4611686940764569601i64, 6091097722885996547i64),
        (7244019458077130755i64, -9223372036854743029i64, 4625834493931454476i64),
        (-8822603764993982438i64, 7269397715943456774i64, -8822610697631858662i64),
        (-6917529027641049086i64, 6738489187050291218i64, -6738594740166492142i64),
        (8445051253489106933i64, 4611686940764569601i64, -9219250321346625536i64),
        (5764607523034267653i64, -6044629098073063439i64, 5764613287641841669i64),
        (-9223372036854743039i64, 8445051253489106933i64, -4612716908472926206i64),
        (-8660079249757798409i64, 6990206877904633870i64, -6990207910266437618i64),
        (7244019458077130755i64, 4690517942345367541i64, 7243733171581648899i64),
        (5764607523034267653i64, -5161067452453257218i64, 5804928362506584069i64),
        (4690517942345367541i64, 4611686018427420672i64, -9218791452926640129i64),
        (6902298239758598145i64, 7382726457448824836i64, -6519939177478914044i64),
        (7378697629483827198i64, -9223372036854743040i64, 5534023222112911361i64),
        (6917529027641114626i64, 4611686018427420675i64, -9223372036854743040i64),
        (9064716256157532157i64, 4611686018427420672i64, -6957192972815269889i64),
        (-4943427215108046840i64, 5745141042627379224i64, -5745216473340411880i64),
        (-5357422199536779273i64, -4689738606787133448i64, 8044110028075204598i64),
        (-5613230734335115284i64, 8445051253489106933i64, -8456014594767028235i64),
        (9223370192180379648i64, 8070450532247961604i64, -7493989895236583420i64),
        (8070450532247961604i64, -6007380382947770351i64, 6008365545366323217i64),
        (-8179886494835900432i64, 4611686018427420675i64, -4611701620322631677i64),
        (-4943427215108046840i64, 5203078405421826059i64, -5821006807310237685i64),
    ];
    for (a, b, expected) in cases {
        assert_eq!(PseudoDouble(a).const_sub(PseudoDouble(b)).0, expected, "input words {} {}", a, b);
    }
}

#[test]
fn product_words() {
    let cases: [(i64, i64, i64); 120] = [
        (6902298239758598145i64, 5764607523034267653i64, 8627872799698223108i64),
        (-7444468777501163529i64, 7244019458077130755i64, -5846872105319038983i64),
        (6631753616527360008i64, -6819195788751765487i64, -4903112023797759976i64),
        (-5613230734335115284i64, 6148914691236528128i64, -7484307645780164630i64),
        (8687499202136866834i64, 6917529027641114626i64, 6515624401602641939i64),
        (-6949999425041301486i64, -4689738606787133448i64, 7067627867666415624i64),
        (6917529027641114627i64, -4918913039175548954i64, -7378369558763372569i64),
        (-8179886494835900432i64, -8360636109096517608i64, 7414756135149600775i64),
        (6902298239758598145i64, 6917529027641114625i64, 5176723679818907649i64),
        (-6949999425041301486i64, -8822603764993982438i64, 6648012337468899371i64),
        (4611686018427420675i64, -9223370192180314112i64, -9223370192180314111i64),
        (8445051253489106933i64, 7244019458077130755i64, 6632727744287637495i64),
        (-9223370192180314112i64, 4611686940764569601i64, -9223372036854284289i64),
        (-8360636109096517608i64, -8660079249757798409i64, 7850032612134912014i64),
        (-6819195788751765487i64, 6148914691236528128i64, -9092261051669053425i64),
        (6917529027641114627i64, -8360636109096517608i64, -6270477081822396390i64),
        (4611686018427420675i64, 4611686940764569601i64, 4611686940764569602i64),
        (-5613230734335115284i64, -6917529027641049087i64, 8419846101502754795i64),
        (6426364484170645493i64, 5115916010487840759i64, 7129006793270329322i64),
        (-6467032802182594543i64, 6902298239758598145i64, -4839595426553757679i64),
        (-8454891310276640779i64, 6917529027641114627i64, -6341168482707472393i64),
        (-7444468777501163529i64, 4611686018427420690i64, -7444468777501163513i64),
        (5764607523034267651i64, 4611686018427420675i64, 5764607523034267652i64),
        (-5764607523034202109i64, 9223370192180379648i64, -5764606370112700414i64),
        (5115916010487840759i64, -8179886494835900432i64, -9074254430091182107i64),
        (-5161067452453257218i64, 6033673968401416165i64, -6752454137727713311i64),
        (-5368709119999967197i64, 6426364484170645493i64, -7481272896019070954i64),
        (-6467032802182594543i64, -6044629098073063439i64, 8476469234476744704i64),
        (7378697629483827198i64, -8257567860547158044i64, -6606054288437706783i64),
        (4611686018427420676i64, 5745141042627379224i64, 5745141042627379226i64),
        (7244019458077130755i64, 6044629098073128945i64, 4747440592045375475i64),
        (8070450532247961604i64, -6917529027641049086i64, -6052837899185913851i64),
        (-5161067452453257218i64, 5368709120000032803i64, -6008273284478697441i64),
        (-7444468777501163529i64, 6033673968401416165i64, -4869964834108899365i64),
        (-6805842897769824275i64, 7382726457448824836i64, -5447647153972936720i64),
        (-6949999425041301486i64, -5613230734335115284i64, 8459368270166196220i64),
        (5745141042627379224i64, 7378697629483827198i64, 9192225668203708436i64),
        (5764607523034267653i64, 6148914691236528128i64, 7686143364045635587i64),
        (-4611686940764504063i64, -4689738606787133448i64, 4689739544734826487i64),
        (-8454891310276640779i64, -8822603764993982438i64, 8087514588872540174i64),
        (4611686018427420672i64, 8445051253489106933i64, 8445051253489106931i64),
        (5203078405421826059i64, -6007380382947770351i64, -6777753519813328870i64),
        (-6805842897769824275i64, -6261452564458012652i64, 4620269278444027904i64),
        (-6819195788751765487i64, 7378697629483827198i64, -5455356631001432050i64),
        (-8662629688403722234i64, -6917529027641049086i64, 6496972266302832647i64),
        (9064716256157532157i64, -4611686940764504063i64, -9064718069100675076i64),
        (8820025748809220079i64, -6261452564458012652i64, -5987633657494732798i64),
        (9223370192180379648i64, -8822603764993982438i64, -8822602000473227239i64),
        (5203078405421826059i64, -4918913039175548954i64, -5549703537928536081i64),
        (-7538402616458772502i64, 4611686018427420675i64, -7538402616458772501i64),
        (-5613230734335115284i64, 7382726457448824836i64, -8986072965191270418i64),
        (-4943427215108046840i64, 6805647338418765759i64, -7295210934728687675i64),
        (-4689738606787133448i64, -6819195788751765487i64, 6934610385434542087i64),
        (6426364484170645493i64, 7382726457448824836i64, 5143898664492564472i64),
        (5203078405421826059i64, 6805647338418765759i64, 7678388459220795336i64),
        (-9223370192180314112i64, -7824379150600929253i64, 7824377585725112346i64),
        (9064716256157532157i64, -8360636109096517608i64, -8216820675466199020i64),
        (5368709120000032803i64, -4943427215108046840i64, -5754906701748338647i64),
        (-6917529027641049087i64, 6917529027641114627i64, -5188146770730778621i64),
        (8820025748809220079i64, -6949999425041301486i64, -6646069749559492608i64),
        (6044629098073128945i64, -6917529027641049087i64, -9066943647109644304i64),
        (7382726457448824836i64, -8360636109096517608i64, -6692160866664677349i64),
        (4611686018427420676i64, 5764607523034267653i64, 5764607523034267655i64),
        (-6805842897769824275i64, -4611686940764504063i64, 6805844258938388460i64),
        (-4689738606787133448i64, 7378697629483827198i64, -7503581770859446284i64),
        (6990206877904633870i64, 4611686018427420674i64, 6990206877904633870i64),
        (6982674514343723005i64, -5357422199536779273i64, -8111813186284847118i64),
        (-4918913039175548954i64, -6917529027641049085i64, 7378369558763372519i64),
        (-6917529027641049085i64, -9223370192180314112i64, 6917527644135260162i64),
        (-8454891310276640779i64, 4611686018427420673i64, -8454891310276640780i64),
        (-6917529027641049086i64, -6819195788751765487i64, 5114396841563881490i64),
        (-6261452564458012652i64, 5368709120000032803i64, -7289290153954672587i64),
        (-8662629688403722234i64, 5764607523034267653i64, -5414143555252355062i64),
        (7378697629483827198i64, 6917529027641114626i64, 5534023222112845823i64),
        (6267931151224897539i64, -6805842897769824275i64, -4625049769088679953i64),
        (7382726457448824836i64, -7378697629483761666i64, -5906181165958987775i64),
        (6631753616527360008i64, 9064716256157532157i64, 6517677545084256260i64),
        (-7538402616458772502i64, 4611686018427420673i64, -7538402616458772503i64),
        (7244019458077130755i64, 5203078405421826059i64, 8172976447262392332i64),
        (5764607523034267651i64, -5613230734335115284i64, -7016538417918935059i64),
        (9064716256157532157i64, -6819195788751765487i64, -6701895431868350451i64),
        (-6007380382947770351i64, 6982674514343723005i64, -9095931884860243956i64),
        (8385467011604381690i64, 6990206877904633870i64, 6355175628256149511i64),
        (4611686018427420675i64, 6902298239758598145i64, 6902298239758598146i64),
        (-4689738606787133448i64, 8820025748809220079i64, -8969304306877431835i64),
        (6148914691236528128i64, 6917529027641114627i64, 9223372036854743041i64),
        (6917529027641114627i64, -8660079249757798409i64, -6495059437318340615i64),
        (-8822603764993982438i64, 4611686018427420672i64, -8822603764993982440i64),
        (-4918913039175548954i64, 6982674514343723005i64, -7447854988323094559i64),
        (8687499202136866834i64, 4690517942345367541i64, 8836002867261374469i64),
        (7269397715943456774i64, 4611686018427420676i64, 7269397715943456776i64),
        (5203078405421826059i64, 6982674514343723005i64, 7878117207567400966i64),
        (4611686018427420674i64, 0i64, 0i64),
        (7269397715943456774i64, -6044629098073063439i64, -4764072487120633866i64),
        (6426364484170645493i64, -8822603764993982438i64, -6147130059019223026i64),
        (-4943427215108046840i64, 6902298239758598145i64, -7398814409496690681i64),
        (-6805842897769824275i64, 9223370192180379648i64, -6805841536601260052i64),
        (8445051253489106933i64, 9223370192180379648i64, 8445049564478799860i64),
        (7244019458077130755i64, 4611686940764569601i64, 7244020906880892930i64),
        (7244019458077130755i64, -9223372036854743029i64, -7244019458077065203i64),
        (-8822603764993982438i64, 7269397715943456774i64, -6953532330870996961i64),
        (-6917529027641049086i64, 6738489187050291218i64, -5053866890287677421i64),
        (8445051253489106933i64, 4611686940764569601i64, 8445052942499217396i64),
        (5764607523034267653i64, -6044629098073063439i64, -7555786372591353868i64),
        (-9223372036854743039i64, 8445051253489106933i64, -8445051253489041419i64),
        (-8660079249757798409i64, 6990206877904633870i64, -6563298682192035836i64),
        (7244019458077130755i64, 4690517942345367541i64, 7367848354601598966i64),
        (5764607523034267653i64, -5161067452453257218i64, -6451334315566596095i64),
        (4690517942345367541i64, 4611686018427420672i64, 4690517942345367539i64),
        (6902298239758598145i64, 7382726457448824836i64, 5524853559874912260i64),
        (7378697629483827198i64, -9223372036854743040i64, -7378697629483761667i64),
        (6917529027641114626i64, 4611686018427420675i64, 6917529027641114627i64),
        (9064716256157532157i64, 4611686018427420672i64, 9064716256157532155i64),
        (-4943427215108046840i64, 5745141042627379224i64, -6158417219055026146i64),
        (-5357422199536779273i64, -4689738606787133448i64, 5448096340824653805i64),
        (-5613230734335115284i64, 8445051253489106933i64, -5139554282284548128i64),
        (9223370192180379648i64, 8070450532247961604i64, 8070448918157819907i64),
        (8070450532247961604i64, -6007380382947770351i64, -5256457835079303148i64),
        (-8179886494835900432i64, 4611686018427420675i64, -8179886494835900431i64),
        (-4943427215108046840i64, 5203078405421826059i64, -5577361357413973999i64),
    ];
    for (a, b, expected) in cases {
        assert_eq!(PseudoDouble(a).const_mul(PseudoDouble(b)).0, expected, "input words {} {}", a, b);
    }
}

#[test]
fn quotient_words() {
    let cases: [(i64, i64, i64); 120] = [
        (-6917529027641049086i64, -6917529027641049086i64, 4611686018427420674i64),
        (5745141042627379224i64, 9223370192180379648i64, 5745142191655780377i64),
        (5745141042627379224i64, 6917529027641114625i64, 7660188056836472856i64),
        (6267931151224897539i64, -6044629098073063439i64, -4782051964740665324i64),
        (6631753616527360008i64, 4611686018427420673i64, 6631753616527360009i64),
        (8687499202136866834i64, -6819195788751765487i64, -5875182330397163517i64),
        (-6007380382947770351i64, -5764607523034202109i64, 4805904306358222864i64),
        (8385467011604381690i64, -6949999425041301486i64, -5564193406414520342i64),
        (-6917529027641049086i64, 8445051253489106933i64, -7555068866078932978i64),
        (-4943427215108046840i64, 6148914691236528128i64, -7415140822662152183i64),
        (5115916010487840759i64, -8454891310276640779i64, -5580911089498882045i64),
        (-5613230734335115284i64, 6044629098073128945i64, -8565110373436260356i64),
        (4690517942345367541i64, 5764607523034267651i64, 7504828707752542195i64),
        (-7444468777501163529i64, 5368709120000032803i64, -6394749987092135978i64),
        (-9223372036854743029i64, -6007380382947770351i64, 7080506502610583548i64),
        (7378697629483827198i64, -7378697629483761666i64, -9223372036854743039i64),
        (4690517942345367541i64, -6467032802182594543i64, -6689681860465033243i64),
        (-6044629098073063439i64, -9223372036854743040i64, 6044629098073128946i64),
        (6982674514343723005i64, -6261452564458012652i64, -5142880521337208853i64),
        (-7378697629483761666i64, -5613230734335115284i64, 6062148217772146708i64),
        (8188868669433282540i64, -6819195788751765487i64, -5537968452505141283i64),
        (-9223370192180314112i64, 6426364484170645493i64, -6618872530935775219i64),
        (-9223372036854743040i64, 4611686018427420674i64, -9223372036854743040i64),
        (-8662629688403722234i64, -5161067452453257218i64, 7740516585931440138i64),
        (4611686018427420672i64, 9223371136134840331i64, 4611686468787404790i64),
        (6738489187050291218i64, -7824379150600929253i64, -7943325795212034056i64),
        (-8360636109096517608i64, 6267931151224897539i64, -6151412279304486889i64),
        (-6819195788751765487i64, -6949999425041301486i64, 9049782007922589696i64),
        (-7378697629483761666i64, 6033673968401416165i64, -5639720818576031717i64),
        (6917529027641114626i64, 5745141042627379224i64, 5552774363960410092i64),
        (8820025748809220079i64, 7382726457448824836i64, 5509507857617223661i64),
        (5764607523034267653i64, 8687499202136866834i64, 6120187017492791284i64),
        (-8662629688403722234i64, -5764607523034202109i64, 6930103750723010565i64),
        (-8360636109096517608i64, 6917529027641114627i64, -5573757406064377833i64),
        (-5368709119999967197i64, -9223370192180314112i64, 5368710193742053412i64),
        (6044629098073128945i64, -9223372036854743041i64, -6044629098073063437i64),
        (-9223370192180314112i64, 7269397715943456774i64, -5851280810343956484i64),
        (-6917529027641049085i64, -8662629688403722234i64, 7365308929583579134i64),
        (-7378697629483761666i64, 6917529027641114626i64, -4919131752989163522i64),
        (6738489187050291218i64, -4611686940764504063i64, -6738487839352782829i64),
        (-8454891310276640779i64, 4690517942345367541i64, -8312792856182947838i64),
        (6902298239758598145i64, -6044629098073063439i64, -5266035644347088878i64),
        (-6805842897769824275i64, -6044629098073063439i64, 5192446058479255550i64),
        (-6917529027641049085i64, -6805842897769824275i64, 4687365309195059224i64),
        (-6044629098073063439i64, -5357422199536779273i64, 5203235895907745788i64),
        (-8179886494835900432i64, -6044629098073063439i64, 6240758128994779137i64),
        (6902298239758598145i64, -9223372036854743039i64, -6902298239758532607i64),
        (-8360636109096517608i64, 6033673968401416165i64, -6390240647970455499i64),
        (-4943427215108046840i64, 4611686018427420673i64, -4943427215108046839i64),
        (6267931151224897539i64, 7382726457448824836i64, 7830638347816566784i64),
        (-4689738606787133448i64, -6917529027641049086i64, 6252984809049587703i64),
        (-5357422199536779273i64, 5203078405421826059i64, -4748486785567391762i64),
        (8820025748809220079i64, -5161067452453257218i64, -7881158268648128525i64),
        (-9223370192180314112i64, 9064716256157532157i64, -4692401411810820091i64),
        (-7824379150600929253i64, -6044629098073063439i64, 5969527550202183724i64),
        (-6819195788751765487i64, 5368709120000032803i64, -5857644579541975056i64),
        (-4918913039175548954i64, -6467032802182594543i64, 7015422120936243158i64),
        (7378697629483827198i64, 7269397715943456774i64, 4681025584480288762i64),
        (4611686018427420673i64, 4611686018427420676i64, 4611686018427420671i64),
        (-7444468777501163529i64, 8820025748809220079i64, -7784909829873631223i64),
        (-7444468777501163529i64, -5368709119999967197i64, 6394749987092135894i64),
        (6426364484170645493i64, -6044629098073063439i64, -4902927005135110138i64),
        (5368709120000032803i64, -8179886494835900432i64, -6053580523724439500i64),
        (-7538402616458772502i64, 6917529027641114626i64, -5025601744305881110i64),
        (9223370192180379648i64, 5745141042627379224i64, 7403697671207354346i64),
        (-4943427215108046840i64, 8820025748809220079i64, -5169493790674092006i64),
        (8188868669433282540i64, -6044629098073063439i64, -6247610984369913859i64),
        (6990206877904633870i64, -5357422199536779273i64, -6017192247333912551i64),
        (4611686018427420673i64, -4943427215108046840i64, -8604414308988125190i64),
        (-6467032802182594543i64, -4943427215108046840i64, 6033046195843465227i64),
        (7378697629483827198i64, -4611686940764504063i64, -7378696153744637953i64),
        (-4918913039175548954i64, 6148914691236528128i64, -7378369558763372569i64),
        (-5368709119999967197i64, -7444468777501163529i64, 6651596379995340845i64),
        (-8179886494835900432i64, 4611686018427420672i64, -8179886494835900430i64),
        (6267931151224897539i64, 6044629098073128945i64, 4782051964740665364i64),
        (-9223372036854743040i64, 5764607523034267653i64, -7378697629483827203i64),
        (5203078405421826059i64, 9223370192180379648i64, 5203079446037692428i64),
        (-7538402616458772502i64, 6982674514343723005i64, -4978714943133351953i64),
        (-8360636109096517608i64, -5613230734335115284i64, 6868883620556603438i64),
        (-4943427215108046840i64, -8257567860547158044i64, 5521609887082840101i64),
        (6631753616527360008i64, 7244019458077130755i64, 8443810955503042566i64),
        (-6805842897769824275i64, 6917529027641114625i64, -9074457197026443283i64),
        (4611686018427420673i64, 8070450532247961604i64, 5270498306774171646i64),
        (7382726457448824836i64, -6044629098073063439i64, -5632573286017499115i64),
        (6990206877904633870i64, -8454891310276640779i64, -7625559724360957926i64),
        (9064716256157532157i64, -8662629688403722234i64, -4825743073779744775i64),
        (7382726457448824836i64, -6949999425041301486i64, -4898822906231816204i64),
        (-7444468777501163529i64, 6990206877904633870i64, -4911378615179509781i64),
        (6033673968401416165i64, -8257567860547158044i64, -6739371773805101054i64),
        (6148914691236528128i64, 8188868669433282540i64, 6925709778672189461i64),
        (6738489187050291218i64, 5764607523034267653i64, 5390791349640200207i64),
        (7378697629483827198i64, -4689738606787133448i64, -7255891968658276344i64),
        (-8179886494835900432i64, 6917529027641114627i64, -5453257663223922705i64),
        (-9223372036854743039i64, 4611686018427420672i64, -9223372036854743037i64),
        (5764607523034267653i64, 7269397715943456774i64, 7314102475750473728i64),
        (5203078405421826059i64, -8454891310276640779i64, -5675995835901509609i64),
        (-9223372036854743029i64, 7244019458077130755i64, -5871781006564032502i64),
        (-8454891310276640779i64, 5115916010487840759i64, -7621568446978555904i64),
        (7244019458077130755i64, 9064716256157532157i64, 7370808375681318919i64),
        (-4943427215108046840i64, -7824379150600929253i64, 5827308143490531310i64),
        (-8660079249757798409i64, 4611686018427420674i64, -8660079249757798409i64),
        (7382726457448824836i64, -8360636109096517608i64, -8144551667461488659i64),
        (-7538402616458772502i64, 4611686018427420674i64, -7538402616458772502i64),
        (-9223372036854743029i64, -6917529027641049087i64, 6148914691236528140i64),
        (-6805842897769824275i64, 8820025748809220079i64, -7117079117256818689i64),
        (-7444468777501163529i64, -4689738606787133448i64, 7320568469665972225i64),
        (8687499202136866834i64, 9223371136134840331i64, 8687500050525552648i64),
        (-5161067452453257218i64, -9223372036854743029i64, 5161067452453322740i64),
        (-7444468777501163529i64, 8385467011604381690i64, -8188345986767618050i64),
        (4611686018427420675i64, 7269397715943456774i64, 5851281980600385534i64),
        (7269397715943456774i64, -6819195788751765487i64, -4916148596921368585i64),
        (5764607523034267651i64, -6044629098073063439i64, -8796093022208098285i64),
        (-7538402616458772502i64, 9223370192180379648i64, -7538404124139618325i64),
        (6902298239758598145i64, -8822603764993982438i64, -7215836307555647512i64),
        (8820025748809220079i64, 4611686018427420674i64, 8820025748809220079i64),
        (6148914691236528128i64, 7269397715943456774i64, 7801709307467169787i64),
        (6982674514343723005i64, -7538402616458772502i64, -8543428645936398316i64),
        (6982674514343723005i64, 8070450532247961604i64, 7980199444964212730i64),
        (4611686018427420676i64, 4611686018427420676i64, 4611686018427420674i64),
        (8188868669433282540i64, -8660079249757798409i64, -8721511676840476682i64),
    ];
    for (a, b, expected) in cases {
        assert_eq!(PseudoDouble(a).const_div(PseudoDouble(b)).0, expected, "input words {} {}", a, b);
    }
}

#[test]
fn power_words() {
    let cases: [(i64, i64, i64); 120] = [
        (5203078405421826059i64, -8935966612880588793i64, 5135012979977649609i64),
        (6917529027641114625i64, 7244019458077130755i64, 7471591260150857728i64),
        (6982674514343723005i64, -8179886494835900432i64, 4611781218974138370i64),
        (6044629098073128945i64, -8660079249757798409i64, 4660626915716464642i64),
        (9223371136134840331i64, -7378697629483761666i64, 4611686063463432193i64),
        (6990206877904633870i64, 8820025748809220079i64, 4611832946326274050i64),
        (4611686018427420676i64, 6990206877904633870i64, 4948840964167348355i64),
        (5203078405421826059i64, -8662629688403722234i64, 5590042635847827182i64),
        (6044629098073128945i64, 4611686018427420676i64, 6805647338418569151i64),
        (6902298239758598145i64, 6990206877904633870i64, 6412043366265877981i64),
        (9064716256157532157i64, -9223372036854743029i64, 7152775856062959643i64),
        (6982674514343723005i64, 8687499202136866834i64, 0i64),
        (6033673968401416165i64, 6990206877904633870i64, 0i64),
        (5368709120000032803i64, 6426364484170645493i64, 4629784489948315650i64),
        (7382726457448824836i64, 8385467011604381690i64, 4672911148516737026i64),
        (6902298239758598145i64, -9223370192180314112i64, 5330988205180747778i64),
        (4611686018427420690i64, -5764607523034202109i64, 4611686018427420634i64),
        (8820025748809220079i64, -6917529027641049087i64, 6744342768508436495i64),
        (4690517942345367541i64, -8179886494835900432i64, 4611966672732192770i64),
        (7269397715943456774i64, -5613230734335115284i64, 9223363397690621953i64),
        (9223370192180379648i64, 6805647338418765759i64, 9223372036854743041i64),
        (6033673968401416165i64, 8188868669433282540i64, 9223294596067262465i64),
        (4690517942345367541i64, 6738489187050291218i64, 0i64),
        (6902298239758598145i64, 9223370192180379648i64, 7978876378638548993i64),
        (7378697629483827198i64, 4611686018427420672i64, 5186683253928525825i64),
        (5368709120000032803i64, -6044629098073063439i64, 9221248521446981633i64),
        (6631753616527360008i64, 6033673968401416165i64, 4611686069250064386i64),
        (9064716256157532157i64, -8935966612880588793i64, 6870167646235754747i64),
        (9064716256157532157i64, 4611686940764569601i64, 9143697489923964927i64),
        (6917529027641114625i64, -5161067452453257218i64, 4705422603928109058i64),
        (6044629098073128945i64, -9223372036854743039i64, 7036874417766432786i64),
        (4611686018427420690i64, -4918913039175548954i64, 9223371630407024641i64),
        (4611686940764569601i64, -7538402616458772502i64, 4611686329874808834i64),
        (6805647338418765759i64, 6267931151224897539i64, 6090492001284226893i64),
        (8687499202136866834i64, 4690517942345367541i64, 4618403549502799874i64),
        (9223370192180379648i64, -4943427215108046840i64, 7008705581921435718i64),
        (4611686940764569601i64, 8687499202136866834i64, 0i64),
        (6148914691236528128i64, 6917529027641114625i64, 8092426832998137856i64),
        (6917529027641114625i64, -9223372036854743041i64, 4955579130413088770i64),
        (5764607523034267653i64, -5357422199536779273i64, 9211333103333441537i64),
        (4690517942345367541i64, -7378697629483761666i64, 5668036298344398851i64),
        (6982674514343723005i64, -6261452564458012652i64, 4611686018427420674i64),
        (8188868669433282540i64, -4611686940764504063i64, 6921628352059834380i64),
        (6917529027641114627i64, -9223372036854743040i64, 5325116328314175489i64),
        (6902298239758598145i64, -8660079249757798409i64, 4612911981179469826i64),
        (5764607523034267651i64, -6805842897769824275i64, 9223366089618915329i64),
        (9223371136134840331i64, -8662629688403722234i64, 6320141430418865877i64),
        (4611686018427420675i64, -8257567860547158044i64, 9223372026193543169i64),
        (6426364484170645493i64, 6426364484170645493i64, 9209765128933048321i64),
        (6148914691236528128i64, 9223370192180379648i64, 5325116913337991169i64),
        (7378697629483827198i64, -6007380382947770351i64, 4611686018427420674i64),
        (8385467011604381690i64, -6805842897769824275i64, 4611702073728532482i64),
        (6917529027641114625i64, 6990206877904633870i64, 5366030891672565233i64),
        (4611686018427420676i64, -9223372036854743029i64, 4611686018427418626i64),
        (6917529027641114626i64, 6805647338418765759i64, 4611686018427420674i64),
        (4611686018427420674i64, 6148914691236528128i64, 4611686018427420674i64),
        (8188868669433282540i64, -7378697629483761666i64, 5001834442994515972i64),
        (4611686018427420676i64, -6949999425041301486i64, 0i64),
        (5368709120000032803i64, 4690517942345367541i64, 4624888862049665026i64),
        (4611686018427420676i64, -5357422199536779273i64, 9216121993089810433i64),
        (6267931151224897539i64, 4611686018427420672i64, 5921522061444218882i64),
        (8385467011604381690i64, -6949999425041301486i64, 4611686018427420674i64),
        (6033673968401416165i64, 8820025748809220079i64, 9222704781899104257i64),
        (4690517942345367541i64, 4611686018427420676i64, 4935191540730265550i64),
        (8820025748809220079i64, 8188868669433282540i64, 9223323144097792001i64),
        (9064716256157532157i64, -7538402616458772502i64, 4611687272013987842i64),
        (4611686018427420675i64, -9223372036854743029i64, 4611686018427419650i64),
        (5764607523034267651i64, 6917529027641114625i64, 9168847251798917122i64),
        (6990206877904633870i64, -8662629688403722234i64, 5723650986050289287i64),
        (7244019458077130755i64, -8179886494835900432i64, 9223300597308030977i64),
        (6805647338418765759i64, -5357422199536779273i64, 4733741234626134018i64),
        (6917529027641114627i64, 4611686018427420676i64, 5836665117072195592i64),
        (6982674514343723005i64, -9223372036854743039i64, 6091547841409744902i64),
        (9223370192180379648i64, 8687499202136866834i64, 0i64),
        (6917529027641114627i64, -9223372036854743041i64, 7008247215643262977i64),
        (4611686018427420672i64, 6917529027641114627i64, 4611686018427420668i64),
        (6267931151224897539i64, 6982674514343723005i64, 4835139418787053570i64),
        (8687499202136866834i64, 9223370192180379648i64, 6329606991466692618i64),
        (6917529027641114627i64, 5115916010487840759i64, 4614431175085490178i64),
        (6148914691236528128i64, 7382726457448824836i64, 8316610769864851447i64),
        (5203078405421826059i64, 6917529027641114626i64, 7815840495258664975i64),
        (7269397715943456774i64, 7244019458077130755i64, 7131724670661197840i64),
        (5203078405421826059i64, 6426364484170645493i64, 4616677136948035586i64),
        (6917529027641114625i64, -9223372036854743029i64, 9213143944149762474i64),
        (6917529027641114627i64, 6044629098073128945i64, 4611736683255005186i64),
        (6044629098073128945i64, -6819195788751765487i64, 4611686018427420674i64),
        (8188868669433282540i64, 4611686018427420674i64, 8188868669433282540i64),
        (7382726457448824836i64, -8454891310276640779i64, 9219539968653033473i64),
        (5203078405421826059i64, -8257567860547158044i64, 9223371939047768065i64),
        (6738489187050291218i64, 6917529027641114625i64, 6128960672677199886i64),
        (4611686018427420675i64, -8935966612880588793i64, 9186848493283868611i64),
        (7382726457448824836i64, 4690517942345367541i64, 4612749319626129410i64),
        (5764607523034267653i64, 6267931151224897539i64, 4708381001618194443i64),
        (6267931151224897539i64, 6917529027641114627i64, 5789261862579372038i64),
        (4611686018427420690i64, 4611686018427420674i64, 4611686018427420690i64),
        (4611686018427420675i64, -5613230734335115284i64, 9223370181579276289i64),
        (6917529027641114627i64, -5161067452453257218i64, 8541167500116590593i64),
        (4611686940764569601i64, 6982674514343723005i64, 8925777616729833473i64),
        (4611686018427420676i64, -5613230734335115284i64, 9223368326304202753i64),
        (6902298239758598145i64, -6044629098073063439i64, 4611699387091222530i64),
        (9223370192180379648i64, 5764607523034267653i64, 9223353590127099895i64),
        (8687499202136866834i64, -8179886494835900432i64, 9222640421451694081i64),
        (7378697629483827198i64, -6819195788751765487i64, 4611686018427420674i64),
        (4611686018427420674i64, -6044629098073063439i64, 4611686018427420674i64),
        (5745141042627379224i64, 8687499202136866834i64, 4611686018427420674i64),
        (5203078405421826059i64, 7378697629483827198i64, 8710173204667531266i64),
        (6426364484170645493i64, -7444468777501163529i64, 4643342649499287554i64),
        (5368709120000032803i64, -4918913039175548954i64, 9223371192985944065i64),
        (7269397715943456774i64, -6261452564458012652i64, 0i64),
        (5203078405421826059i64, 7244019458077130755i64, 8148242051546841118i64),
        (5764607523034267653i64, -6949999425041301486i64, 0i64),
        (9223371136134840331i64, 6917529027641114627i64, 9223369334695165983i64),
        (6738489187050291218i64, 6426364484170645493i64, 4620692336953884674i64),
        (6033673968401416165i64, -8179886494835900432i64, 4612304909305675778i64),
        (6631753616527360008i64, 8070450532247961604i64, 7330782024784117807i64),
        (4611686018427420674i64, -7538402616458772502i64, 4611686018427420674i64),
        (4611686018427420672i64, 6917529027641114626i64, 4611686018427420671i64),
        (6917529027641114626i64, 8188868669433282540i64, 4611686810048757762i64),
        (6805647338418765759i64, -6917529027641049087i64, 8192000000000032819i64),
        (6917529027641114625i64, -6917529027641049087i64, 5722209889869004802i64),
    ];
    for (a, b, expected) in cases {
        assert_eq!(PseudoDouble(a).powf(PseudoDouble(b)).0, expected, "input words {} {}", a, b);
    }
}

#[test]
fn atan2_rev_words() {
    let cases: [(i64, i64, i64); 120] = [
        (6902298239758598145i64, 5764607523034267653i64, 7017542745935478779i64),
        (-7444468777501163529i64, 7244019458077130755i64, -6034258978381987853i64),
        (6631753616527360008i64, -6819195788751765487i64, 9217795499779391488i64),
        (-5613230734335115284i64, 6148914691236528128i64, -5360240508503293973i64),
        (8687499202136866834i64, 6917529027641114626i64, 9223300694714908671i64),
        (-6949999425041301486i64, -4689738606787133448i64, -4611686047947915264i64),
        (6917529027641114627i64, -4918913039175548954i64, 4611686022315933696i64),
        (-8179886494835900432i64, -8360636109096517608i64, -9223372036852187136i64),
        (6902298239758598145i64, 6917529027641114625i64, 9210429499576319998i64),
        (-6949999425041301486i64, -8822603764993982438i64, -9214337903191359488i64),
        (4611686018427420675i64, -9223370192180314112i64, 5330916410848739328i64),
        (8445051253489106933i64, 7244019458077130755i64, 6845300699837136881i64),
        (-9223370192180314112i64, 4611686940764569601i64, -9223369688142413826i64),
        (-8360636109096517608i64, -8660079249757798409i64, -4611686018781380608i64),
        (-6819195788751765487i64, 6148914691236528128i64, -9223331642076266497i64),
        (6917529027641114627i64, -8360636109096517608i64, 9223370878553260032i64),
        (4611686018427420675i64, 4611686940764569601i64, 7784910699373953023i64),
        (-5613230734335115284i64, -6917529027641049087i64, -9223370900871741440i64),
        (6426364484170645493i64, 5115916010487840759i64, 7146785626149584893i64),
        (-6467032802182594543i64, 6902298239758598145i64, -9223276410285293569i64),
        (-8454891310276640779i64, 6917529027641114627i64, -7176734628474683407i64),
        (-7444468777501163529i64, 4611686018427420690i64, -4739296018430918683i64),
        (5764607523034267651i64, 4611686018427420675i64, 5261440987955429375i64),
        (-5764607523034202109i64, 9223370192180379648i64, -8064308763585904641i64),
        (5115916010487840759i64, -8179886494835900432i64, 4648357729038401536i64),
        (-5161067452453257218i64, 6033673968401416165i64, -9223371832275206145i64),
        (-5368709119999967197i64, 6426364484170645493i64, -9223372036854677505i64),
        (-6467032802182594543i64, -6044629098073063439i64, -4611686019066331136i64),
        (7378697629483827198i64, -8257567860547158044i64, 4611686067386351616i64),
        (4611686018427420676i64, 5745141042627379224i64, 4713341268787232747i64),
        (7244019458077130755i64, 6044629098073128945i64, 9223353346395308031i64),
        (8070450532247961604i64, -6917529027641049086i64, 5231432930742206464i64),
        (-5161067452453257218i64, 5368709120000032803i64, -5644682140525232166i64),
        (-7444468777501163529i64, 6033673968401416165i64, -9223353882615513089i64),
        (-6805842897769824275i64, 7382726457448824836i64, -5412962174739906584i64),
        (-6949999425041301486i64, -5613230734335115284i64, -4611686018436005888i64),
        (5745141042627379224i64, 7378697629483827198i64, 9223371924479967231i64),
        (5764607523034267653i64, 6148914691236528128i64, 9027718446137114623i64),
        (-4611686940764504063i64, -4689738606787133448i64, -4617517221164187648i64),
        (-8454891310276640779i64, -8822603764993982438i64, -9223372036834295808i64),
        (4611686018427420672i64, 8445051253489106933i64, 9218121758364696575i64),
        (5203078405421826059i64, -6007380382947770351i64, 9183642947741908992i64),
        (-6805842897769824275i64, -6261452564458012652i64, -9223372036848975872i64),
        (-6819195788751765487i64, 7378697629483827198i64, -9223359918421213185i64),
        (-8662629688403722234i64, -6917529027641049086i64, -4758092701302489088i64),
        (9064716256157532157i64, -4611686940764504063i64, 8864496690694356992i64),
        (8820025748809220079i64, -6261452564458012652i64, 9223372036824662016i64),
        (9223370192180379648i64, -8822603764993982438i64, 9223371991119331328i64),
        (5203078405421826059i64, -4918913039175548954i64, 4611686018447605760i64),
        (-7538402616458772502i64, 4611686018427420675i64, -4799096157655498777i64),
        (-5613230734335115284i64, 7382726457448824836i64, -8928858952343453722i64),
        (-4943427215108046840i64, 6805647338418765759i64, -9223372036854743041i64),
        (-4689738606787133448i64, -6819195788751765487i64, -9223371976681226240i64),
        (6426364484170645493i64, 7382726457448824836i64, 5111147640105500656i64),
        (5203078405421826059i64, 6805647338418765759i64, 4611686018427420672i64),
        (-9223370192180314112i64, -7824379150600929253i64, -9223372011069603840i64),
        (9064716256157532157i64, -8360636109096517608i64, 9223372013138575360i64),
        (5368709120000032803i64, -4943427215108046840i64, 4611686038568730624i64),
        (-6917529027641049087i64, 6917529027641114627i64, -5753844244647084035i64),
        (8820025748809220079i64, -6949999425041301486i64, 9223372036746346496i64),
        (6044629098073128945i64, -6917529027641049087i64, 9223332891648098304i64),
        (7382726457448824836i64, -8360636109096517608i64, 9223369564462415872i64),
        (4611686018427420676i64, 5764607523034267653i64, 8937000472019435517i64),
        (-6805842897769824275i64, -4611686940764504063i64, -9223367904838320128i64),
        (-4689738606787133448i64, 7378697629483827198i64, -7463705453077889032i64),
        (6990206877904633870i64, 4611686018427420674i64, 9222426279776845823i64),
        (6982674514343723005i64, -5357422199536779273i64, 4646880384791248896i64),
        (-4918913039175548954i64, -6917529027641049085i64, -9223372032966230016i64),
        (-6917529027641049085i64, -9223370192180314112i64, -5096544356860526592i64),
        (-8454891310276640779i64, 4611686018427420673i64, -5382550621886709772i64),
        (-6917529027641049086i64, -6819195788751765487i64, -9223281148603105280i64),
        (-6261452564458012652i64, 5368709120000032803i64, -6848178473480060944i64),
        (-8662629688403722234i64, 5764607523034267653i64, -7337320139116478465i64),
        (7378697629483827198i64, 6917529027641114626i64, 6253978875211513851i64),
        (6267931151224897539i64, -6805842897769824275i64, 4611686778469515264i64),
        (7382726457448824836i64, -7378697629483761666i64, 4657530547502415872i64),
        (6631753616527360008i64, 9064716256157532157i64, 9219453123473670143i64),
        (-7538402616458772502i64, 4611686018427420673i64, -4799096157689053207i64),
        (7244019458077130755i64, 5203078405421826059i64, 8174944369179983863i64),
        (5764607523034267651i64, -5613230734335115284i64, 4611686359222288384i64),
        (9064716256157532157i64, -6819195788751765487i64, 9223368314986528768i64),
        (-6007380382947770351i64, 6982674514343723005i64, -9223365527969693697i64),
        (8385467011604381690i64, 6990206877904633870i64, 7043800961814396907i64),
        (4611686018427420675i64, 6902298239758598145i64, 7121000780913344511i64),
        (-4689738606787133448i64, 8820025748809220079i64, -9201803576149508097i64),
        (6148914691236528128i64, 6917529027641114627i64, 5198039756224233468i64),
        (6917529027641114627i64, -8660079249757798409i64, 4612583345495900160i64),
        (-8822603764993982438i64, 4611686018427420672i64, -9223371991119331329i64),
        (-4918913039175548954i64, 6982674514343723005i64, -8272698404262346777i64),
        (8687499202136866834i64, 4690517942345367541i64, 9223372030949687295i64),
        (7269397715943456774i64, 4611686018427420676i64, 8299804047895920639i64),
        (5203078405421826059i64, 6982674514343723005i64, 9222891074220294143i64),
        (4611686018427420674i64, 0i64, 4611686018427420672i64),
        (7269397715943456774i64, -6044629098073063439i64, 4611687182502952960i64),
        (6426364484170645493i64, -8822603764993982438i64, 9223372036839211008i64),
        (-4943427215108046840i64, 6902298239758598145i64, -9159323644686008321i64),
        (-6805842897769824275i64, 9223370192180379648i64, -8665470045779886101i64),
        (8445051253489106933i64, 9223370192180379648i64, 5376287323685421044i64),
        (7244019458077130755i64, 4611686940764569601i64, 8296621669190172671i64),
        (7244019458077130755i64, -9223372036854743029i64, 9214364865859649536i64),
        (-8822603764993982438i64, 7269397715943456774i64, -9223367422918492161i64),
        (-6917529027641049086i64, 6738489187050291218i64, -6027792644023484433i64),
        (8445051253489106933i64, 4611686940764569601i64, 5376285173171257332i64),
        (5764607523034267653i64, -6044629098073063439i64, 4611688954317864960i64),
        (-9223372036854743039i64, 8445051253489106933i64, -9222059466904338433i64),
        (-8660079249757798409i64, 6990206877904633870i64, -7274475525857312792i64),
        (7244019458077130755i64, 4690517942345367541i64, 9223139981762199551i64),
        (5764607523034267653i64, -5161067452453257218i64, 4632220918467624960i64),
        (4690517942345367541i64, 4611686018427420672i64, 5972152438494691316i64),
        (6902298239758598145i64, 7382726457448824836i64, 5464887920597565436i64),
        (7378697629483827198i64, -9223372036854743040i64, 8643840287301468160i64),
        (6917529027641114626i64, 4611686018427420675i64, 7556995176630550526i64),
        (9064716256157532157i64, 4611686018427420672i64, 5658686449007820797i64),
        (-4943427215108046840i64, 5745141042627379224i64, -5052395025981734929i64),
        (-5357422199536779273i64, -4689738606787133448i64, -7699753721656016896i64),
        (-5613230734335115284i64, 8445051253489106933i64, -7805670352070082571i64),
        (9223370192180379648i64, 8070450532247961604i64, 6699227742331371515i64),
        (8070450532247961604i64, -6007380382947770351i64, 9222890574257356800i64),
        (-8179886494835900432i64, 4611686018427420675i64, -5207477478313918483i64),
        (-4943427215108046840i64, 5203078405421826059i64, -5552750638765277188i64),
    ];
    for (a, b, expected) in cases {
        assert_eq!(PseudoDouble(a).atan2_rev(PseudoDouble(b)).0, expected, "input words {} {}", a, b);
    }
}

#[test]
fn double_bits_words() {
    let cases: [(u64, i64); 78] = [
        (0u64, 0i64),
        (4607182418800017408u64, 4611686018427420674i64),
        (13830554455654793216u64, -9223372036854743039i64),
        (4602678819172646912u64, 4611686018427420673i64),
        (13826050856027422720u64, -9223372036854743040i64),
        (4611686018427387904u64, 4611686018427420675i64),
        (4613937818241073152u64, 6917529027641114627i64),
        (13837309855095848960u64, -6917529027641049085i64),
        (4619567317775286272u64, 8070450532247961604i64),
        (4604930618986332160u64, 6917529027641114625i64),
        (13828302655841107968u64, -6917529027641049087i64),
        (4609434218613702656u64, 6917529027641114626i64),
        (13832806255468478464u64, -6917529027641049086i64),
        (4612811918334230528u64, 5764607523034267651i64),
        (13836183955189006336u64, -5764607523034202109i64),
        (4621819117588971520u64, 5764607523034267653i64),
        (4591870180066957722u64, 7378697629483827198i64),
        (13815242216921733530u64, -7378697629483761666i64),
        (4532020583610935537u64, 6044629098073128945i64),
        (13755392620465711345u64, -6044629098073063439i64),
        (4683220299150161609u64, 8687499202136866834i64),
        (13904895558878867594u64, -6949999425041301486i64),
        (4614256656552045848u64, 7244019458077130755i64),
        (4613303445314885481u64, 6267931151224897539i64),
        (4756540486875873280u64, 5368709120000032803i64),
        (13979912523730649088u64, -5368709119999967197i64),
        (4599676419421066581u64, 6148914691236528128i64),
        (4679240012837945344u64, 4611686018427420690i64),
        (4307583784117748259u64, 6805647338418765759i64),
        (4616189618054758400u64, 4611686018427420676i64),
        (4598175219545276416u64, 4611686018427420672i64),
        (13821547256400052224u64, -9223372036854743041i64),
        (4652218414194113066u64, 9223371136134840331i64),
        (13875590451928498176u64, -9223372036854743029i64),
        (4602678817371207061u64, 9223370192180379648i64),
        (4602678820073366837u64, 4611686940764569601i64),
        (13826050854225982869u64, -9223370192180314112i64),
        (13826050856928142645u64, -4611686940764504063i64),
        (13699006898320123494u64, -8257567860547158044i64),
        (4618895712233490262u64, 7382726457448824836i64),
        (4574838954782202862u64, 8385467011604381690i64),
        (13899920312158861688u64, -6467032802182594543i64),
        (13752974233139867021u64, -8179886494835900432i64),
        (4604915745170040650u64, 6902298239758598145i64),
        (4548712607944902083u64, 4690517942345367541i64),
        (4552379144381565944u64, 8445051253489106933i64),
        (13732453334864270989u64, -5613230734335115284i64),
        (4663548388605296624u64, 6990206877904633870i64),
        (4550407770583403348u64, 6426364484170645493i64),
        (13738121594807495715u64, -6805842897769824275i64),
        (13857295384059666441u64, -8935966612880588793i64),
        (13913230349090070217u64, -6261452564458012652i64),
        (13942753071073566613u64, -8822603764993982438i64),
        (4681316969057303649u64, 6738489187050291218i64),
        (13785594682611908382u64, -4689738606787133448i64),
        (4558135235000563483u64, 5115916010487840759i64),
        (13899471432843202636u64, -6007380382947770351i64),
        (13783781249166875783u64, -7444468777501163529i64),
        (4586979839116208228u64, 6982674514343723005i64),
        (4636176738828009872u64, 6631753616527360008i64),
        (4589013083004698263u64, 9064716256157532157i64),
        (13933294731529863239u64, -8360636109096517608i64),
        (13781743117743082435u64, -5357422199536779273i64),
        (13900264221325433117u64, -6819195788751765487i64),
        (4525723732647928975u64, 8820025748809220079i64),
        (13784968368768688925u64, -8660079249757798409i64),
        (13704753692475868764u64, -4918913039175548954i64),
        (13813076562451977160u64, -5161067452453257218i64),
        (13852524853841986523u64, -8662629688403722234i64),
        (13857900019431399694u64, -4943427215108046840i64),
        (13725326186275666412u64, -7538402616458772502i64),
        (4511596569430489443u64, 8188868669433282540i64),
        (13775760790666798359u64, -8454891310276640779i64),
        (4648292347074276120u64, 5203078405421826059i64),
        (13946281841975943886u64, -7824379150600929253i64),
        (4707368500274238606u64, 5745141042627379224i64),
        (4477966689713669508u64, 6033673968401416165i64),
        (4627792238889104896u64, 7269397715943456774i64),
    ];
    for (bits, expected) in cases {
        assert_eq!(PseudoDouble::double_bits_to_pseudodouble(bits).0, expected, "bits {}", bits);
    }
}

#[test]
fn words_to_ieee_bits() {
    let cases: [(i64, u64, u32); 78] = [
        (0i64, 0u64, 0u32),
        (4611686018427420674i64, 4607182418800017408u64, 1065353216u32),
        (-9223372036854743039i64, 13830554455654793216u64, 3212836864u32),
        (4611686018427420673i64, 4602678819172646912u64, 1056964608u32),
        (-9223372036854743040i64, 13826050856027422720u64, 3204448256u32),
        (4611686018427420675i64, 4611686018427387904u64, 1073741824u32),
        (6917529027641114627i64, 4613937818241073152u64, 1077936128u32),
        (-6917529027641049085i64, 13837309855095848960u64, 3225419776u32),
        (8070450532247961604i64, 4619567317775286272u64, 1088421888u32),
        (6917529027641114625i64, 4604930618986332160u64, 1061158912u32),
        (-6917529027641049087i64, 13828302655841107968u64, 3208642560u32),
        (6917529027641114626i64, 4609434218613702656u64, 1069547520u32),
        (-6917529027641049086i64, 13832806255468478464u64, 3217031168u32),
        (5764607523034267651i64, 4612811918334230528u64, 1075838976u32),
        (-5764607523034202109i64, 13836183955189006336u64, 3223322624u32),
        (5764607523034267653i64, 4621819117588971520u64, 1092616192u32),
        (7378697629483827198i64, 4591870180066957696u64, 1036831949u32),
        (-7378697629483761666i64, 13815242216921733504u64, 3184315597u32),
        (6044629098073128945i64, 4532020583610935488u64, 925353388u32),
        (-6044629098073063439i64, 13755392620465711296u64, 3072837036u32),
        (8687499202136866834i64, 4683220299150161600u64, 1206984805u32),
        (-6949999425041301486i64, 13904895558878867584u64, 3351307959u32),
        (7244019458077130755i64, 4614256656552045824u64, 1078530011u32),
        (6267931151224897539i64, 4613303445314885440u64, 1076754516u32),
        (5368709120000032803i64, 4756540486875873280u64, 1343554297u32),
        (-5368709119999967197i64, 13979912523730649088u64, 3491037945u32),
        (6148914691236528128i64, 4599676419421066560u64, 1051372203u32),
        (4611686018427420690i64, 4679240012837945344u64, 1199570944u32),
        (6805647338418765759i64, 4307583784117748224u64, 507307272u32),
        (4611686018427420676i64, 4616189618054758400u64, 1082130432u32),
        (4611686018427420672i64, 4598175219545276416u64, 1048576000u32),
        (-9223372036854743041i64, 13821547256400052224u64, 3196059648u32),
        (9223371136134840331i64, 4652218414194113024u64, 1149239294u32),
        (-9223372036854743029i64, 13875590451928498176u64, 3296722944u32),
        (9223370192180379648i64, 4602678817371207040u64, 1056964605u32),
        (4611686940764569601i64, 4602678820073366784u64, 1056964610u32),
        (-9223370192180314112i64, 13826050854225982848u64, 3204448253u32),
        (-4611686940764504063i64, 13826050856928142592u64, 3204448258u32),
        (-8257567860547158044i64, 13699006898320123456u64, 2967810444u32),
        (7382726457448824836i64, 4618895712233490240u64, 1087170925u32),
        (8385467011604381690i64, 4574838954782202816u64, 1005108820u32),
        (-6467032802182594543i64, 13899920312158861632u64, 3342040840u32),
        (-8179886494835900432i64, 13752974233139867008u64, 3068332439u32),
        (6902298239758598145i64, 4604915745170040640u64, 1061131207u32),
        (4690517942345367541i64, 4548712607944902080u64, 956444706u32),
        (8445051253489106933i64, 4552379144381565888u64, 963274163u32),
        (-5613230734335115284i64, 13732453334864270976u64, 3030109287u32),
        (6990206877904633870i64, 4663548388605296576u64, 1170343016u32),
        (6426364484170645493i64, 4550407770583403328u64, 959602193u32),
        (-6805842897769824275i64, 13738121594807495680u64, 3040667244u32),
        (-8935966612880588793i64, 13857295384059666432u64, 3262645725u32),
        (-6261452564458012652i64, 13913230349090070208u64, 3366832716u32),
        (-8822603764993982438i64, 13942753071073566592u64, 3421823071u32),
        (6738489187050291218i64, 4681316969057303616u64, 1203439576u32),
        (-4689738606787133448i64, 13785594682611908352u64, 3129092761u32),
        (5115916010487840759i64, 4558135235000563456u64, 973995717u32),
        (-6007380382947770351i64, 13899471432843202624u64, 3341204737u32),
        (-7444468777501163529i64, 13783781249166875776u64, 3125714978u32),
        (6982674514343723005i64, 4586979839116208192u64, 1027722979u32),
        (6631753616527360008i64, 4636176738828009856u64, 1119359346u32),
        (9064716256157532157i64, 4589013083004698240u64, 1031510191u32),
        (-8360636109096517608i64, 13933294731529863232u64, 3404205540u32),
        (-5357422199536779273i64, 13781743117743082432u64, 3121918662u32),
        (-6819195788751765487i64, 13900264221325433088u64, 3342681421u32),
        (8820025748809220079i64, 4525723732647928960u64, 913624589u32),
        (-8660079249757798409i64, 13784968368768688896u64, 3127926160u32),
        (-4918913039175548954i64, 13704753692475868736u64, 2978514683u32),
        (-5161067452453257218i64, 13813076562451977152u64, 3180281751u32),
        (-8662629688403722234i64, 13852524853841986496u64, 3253759920u32),
        (-4943427215108046840i64, 13857900019431399680u64, 3263771946u32),
        (-7538402616458772502i64, 13725326186275666368u64, 3016833938u32),
        (8188868669433282540i64, 4511596569430489408u64, 887310697u32),
        (-8454891310276640779i64, 13775760790666798336u64, 3110775710u32),
        (5203078405421826059i64, 4648292347074276096u64, 1141926424u32),
        (-7824379150600929253i64, 13946281841975943872u64, 3428395919u32),
        (5745141042627379224i64, 4707368500274238592u64, 1251964335u32),
        (6033673968401416165i64, 4477966689713669504u64, 824670165u32),
        (7269397715943456774i64, 4627792238889104896u64, 1103741997u32),
    ];
    for (w, d, f) in cases {
        assert_eq!(PseudoDouble(w).to_double_bits(), d, "word {}", w);
        assert_eq!(PseudoDouble(w).to_float_bits(), f, "word {}", w);
    }
}

#[test]
fn decimal_builder_words() {
    let cases: [(i64, i32, i64); 20] = [
        (1i64, 0, 4611686018427420674i64),
        (-1i64, 0, -9223372036854743039i64),
        (1442695040888963407i64, -18, 6653256548922130434i64),
        (3321928094887362347i64, -18, 7659844674706571267i64),
        (6931471805599453094i64, -19, 6393154322601312257i64),
        (3010299956639811952i64, -19, 5553023288523325440i64),
        (6283185307179586477i64, -18, 7244019458077130756i64),
        (1591549430918953358i64, -19, 5871781006564032511i64),
        (3i64, 0, 6917529027641114627i64),
        (2i64, 0, 4611686018427420675i64),
        (6i64, 0, 6917529027641114628i64),
        (10i64, 0, 5764607523034267653i64),
        (5i64, 3, 5629499534213152782i64),
        (-7i64, -2, -5165088340638662658i64),
        (123456789i64, 10, 4938271559999979582i64),
        (-987654321i64, 25, -8772132540357771150i64),
        (1i64, -30, 5846006549323612062i64),
        (9223372036854775807i64, 2, 7205759403792760903i64),
        (-9223372036854775807i64, -3, -4722366482869616585i64),
        (0i64, 5, 0i64),
    ];
    for (d, e, expected) in cases {
        assert_eq!(PseudoDouble::pdc10(d, e).0, expected, "{}e{}", d, e);
        assert_eq!(PseudoDouble::pd_create_mantissa_exp10(d, e).0, expected);
    }
}

#[test]
fn binary_builder_words() {
    let cases: [(i64, i32, i64); 9] = [
        (1i64, -1, 4611686018427420673i64),
        (1i64, -2, 4611686018427420672i64),
        (3i64, -2, 6917529027641114625i64),
        (1i64, 0, 4611686018427420674i64),
        (-1i64, 0, -9223372036854743039i64),
        (5i64, 7, 5764607523034267659i64),
        (-12345i64, -9, -6949617174986063866i64),
        (0i64, 3, 0i64),
        (4611686018427387904i64, 1, 4611686018427420737i64),
    ];
    for (d, e, expected) in cases {
        assert_eq!(PseudoDouble::pdc2(d, e).0, expected, "{}*2^{}", d, e);
        assert_eq!(PseudoDouble::pd_create_mantissa_exp2(d, e).0, expected);
    }
}
